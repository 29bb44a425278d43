//! The descriptor files this library writes and reads are ordinary
//! plist XML: the plist crate parses our output, and we parse its.

use launchagent::LaunchAgent;
use launchagent::ProcessType;

#[test]
fn test_plist_crate_reads_our_output() {
    let agent = LaunchAgent {
        label: "co.example.interop".to_string(),
        program_arguments: vec!["/bin/echo".to_string(), "hi".to_string()],
        standard_out_path: "/tmp/out.log".to_string(),
        standard_error_path: "/dev/null".to_string(),
        keep_alive: true,
        run_at_load: false,
        process_type: ProcessType::Interactive,
    };
    let xml = agent.to_plist_xml();
    let value = plist::Value::from_reader_xml(xml.as_bytes()).unwrap();
    let dict = value.as_dictionary().unwrap();
    assert_eq!(
        dict.get("Label").and_then(|v| v.as_string()),
        Some("co.example.interop")
    );
    assert_eq!(
        dict.get("StandardOutPath").and_then(|v| v.as_string()),
        Some("/tmp/out.log")
    );
    assert_eq!(
        dict.get("StandardErrorPath").and_then(|v| v.as_string()),
        Some("/dev/null")
    );
    assert_eq!(dict.get("KeepAlive").and_then(|v| v.as_boolean()), Some(true));
    assert_eq!(dict.get("RunAtLoad").and_then(|v| v.as_boolean()), Some(false));
    assert_eq!(
        dict.get("ProcessType").and_then(|v| v.as_string()),
        Some("interactive")
    );
    let args: Vec<&str> = dict
        .get("ProgramArguments")
        .and_then(|v| v.as_array())
        .unwrap()
        .iter()
        .map(|v| v.as_string().unwrap())
        .collect();
    assert_eq!(args, vec!["/bin/echo", "hi"]);
}

#[test]
fn test_plist_crate_reads_escaped_output() {
    let mut agent = LaunchAgent::new("co.example.<esc>&more");
    agent.program_arguments = vec!["echo 1 < 2 && true".to_string()];
    let xml = agent.to_plist_xml();
    let value = plist::Value::from_reader_xml(xml.as_bytes()).unwrap();
    let dict = value.as_dictionary().unwrap();
    assert_eq!(
        dict.get("Label").and_then(|v| v.as_string()),
        Some("co.example.<esc>&more")
    );
    let args: Vec<&str> = dict
        .get("ProgramArguments")
        .and_then(|v| v.as_array())
        .unwrap()
        .iter()
        .map(|v| v.as_string().unwrap())
        .collect();
    assert_eq!(args, vec!["echo 1 < 2 && true"]);
}

#[test]
fn test_we_read_plist_crate_escaped_output() {
    let mut dict = plist::Dictionary::new();
    dict.insert(
        "Label".to_string(),
        plist::Value::String("a < b & c > d".to_string()),
    );
    dict.insert("ProgramArguments".to_string(), plist::Value::Array(vec![]));
    dict.insert(
        "StandardOutPath".to_string(),
        plist::Value::String("/dev/null".to_string()),
    );
    dict.insert(
        "StandardErrorPath".to_string(),
        plist::Value::String("/dev/null".to_string()),
    );
    dict.insert("KeepAlive".to_string(), plist::Value::Boolean(false));
    dict.insert("RunAtLoad".to_string(), plist::Value::Boolean(false));
    dict.insert(
        "ProcessType".to_string(),
        plist::Value::String("standard".to_string()),
    );
    let mut buf: Vec<u8> = Vec::new();
    plist::Value::Dictionary(dict).to_writer_xml(&mut buf).unwrap();
    let xml = String::from_utf8(buf).unwrap();

    let agent = LaunchAgent::from_plist_xml(&xml).unwrap();
    assert_eq!(agent.label, "a < b & c > d");
    assert!(agent.program_arguments.is_empty());
}

#[test]
fn test_we_read_plist_crate_output() {
    let mut dict = plist::Dictionary::new();
    dict.insert(
        "Label".to_string(),
        plist::Value::String("co.example.written".to_string()),
    );
    dict.insert(
        "ProgramArguments".to_string(),
        plist::Value::Array(vec![plist::Value::String("/bin/true".to_string())]),
    );
    dict.insert(
        "StandardOutPath".to_string(),
        plist::Value::String("/dev/null".to_string()),
    );
    dict.insert(
        "StandardErrorPath".to_string(),
        plist::Value::String("/dev/null".to_string()),
    );
    dict.insert("KeepAlive".to_string(), plist::Value::Boolean(false));
    dict.insert("RunAtLoad".to_string(), plist::Value::Boolean(true));
    dict.insert(
        "ProcessType".to_string(),
        plist::Value::String("background".to_string()),
    );
    let mut buf: Vec<u8> = Vec::new();
    plist::Value::Dictionary(dict).to_writer_xml(&mut buf).unwrap();
    let xml = String::from_utf8(buf).unwrap();

    let agent = LaunchAgent::from_plist_xml(&xml).unwrap();
    assert_eq!(agent.label, "co.example.written");
    assert_eq!(agent.program_arguments, vec!["/bin/true"]);
    assert!(!agent.keep_alive);
    assert!(agent.run_at_load);
    assert_eq!(agent.process_type, ProcessType::Background);
}
