use launchagent::BuilderError;
use launchagent::LaunchAgent;
use launchagent::LaunchAgentBuilder;
use launchagent::LaunchAgentError;
use launchagent::ProcessType;

fn agents_equal(a: &LaunchAgent, b: &LaunchAgent) -> bool {
    a.label == b.label
        && a.program_arguments == b.program_arguments
        && a.standard_out_path == b.standard_out_path
        && a.standard_error_path == b.standard_error_path
        && a.keep_alive == b.keep_alive
        && a.run_at_load == b.run_at_load
        && a.process_type == b.process_type
}

#[test]
fn test_format_plist() {
    let agent = LaunchAgent {
        label: "co.myrt.ajam".to_string(),
        program_arguments: vec!["ajam".to_string(), "run".to_string()],
        standard_out_path: "/dev/null".to_string(),
        standard_error_path: "/dev/null".to_string(),
        keep_alive: false,
        run_at_load: false,
        process_type: ProcessType::default(),
    };

    let plist = agent.to_plist_xml();

    assert!(plist.contains("</dict>"));
    assert!(plist.contains("<key>Label</key>"));
    assert!(plist.contains("<key>ProgramArguments</key>"));
    assert!(plist.contains("<key>StandardOutPath</key>"));
    assert!(plist.contains("<key>StandardErrorPath</key>"));
    assert!(plist.contains("<key>KeepAlive</key>"));
    assert!(plist.contains("<key>RunAtLoad</key>"));

    assert!(plist.contains("co.myrt.ajam"));
}

#[test]
fn test_path() {
    let agent = LaunchAgent {
        label: "co.myrt.ajam".to_string(),
        program_arguments: vec![],
        standard_out_path: "/dev/null".to_string(),
        standard_error_path: "/dev/null".to_string(),
        keep_alive: false,
        run_at_load: false,
        process_type: ProcessType::default(),
    };
    let home = "/Users/tester";
    let abs_path = format!("{home}/Library/LaunchAgents/co.myrt.ajam.plist");
    assert_eq!(agent.path(home), abs_path);
}

#[test]
fn test_format_command() {
    let agent = LaunchAgent::new("test");
    let home = "/Users/tester";
    let user_id: u32 = 501;
    let agent_path = agent.path(home);

    assert_eq!(
        agent.format_command("subcommand", user_id, home),
        format!("launchctl subcommand gui/{user_id} '{agent_path}'")
    );
    assert_eq!(
        agent.format_command("manageruid", user_id, home),
        format!("launchctl manageruid gui/{user_id} '{agent_path}'")
    );
    assert_eq!(agent.format_command("", user_id, home), "");
}

#[test]
fn test_format_bootstrap_command() {
    let agent = LaunchAgent::new("test");
    let home = "/Users/tester";
    let user_id: u32 = 501;
    let agent_path = agent.path(home);

    assert_eq!(
        agent.format_bootstrap_command(user_id, home),
        format!("launchctl bootstrap gui/{user_id} '{agent_path}'")
    );
}

#[test]
fn test_format_bootout_command() {
    let agent = LaunchAgent::new("test");
    let home = "/Users/tester";
    let user_id: u32 = 501;
    let agent_path = agent.path(home);

    assert_eq!(
        agent.format_boot_out_command(user_id, home),
        format!("launchctl bootout gui/{user_id} '{agent_path}'")
    );
}

#[test]
fn test_check_info_command() {
    let agent = LaunchAgent::new("test");
    let user_id: u32 = 501;

    assert_eq!(
        agent.format_print_command(user_id),
        format!("launchctl print gui/{user_id}/test")
    );
}

#[test]
fn test_check_is_running() {
    let output = "
{
        domain = gui/501 [100003]
        asid = 100003

        jetsam memory limit (active) = (unlimited)
        jetsam memory limit (inactive) = (unlimited)
        jetsamproperties category = daemon
        jetsam thread limit = 32
        cpumon = default
        job state = running
        probabilistic guard malloc policy = {
                activation rate = 1/1000
                sample rate = 1/0
        }

        properties = keepalive | runatload | inferred program | managed LWCR | has LWCR
}
        ";
    assert!(LaunchAgent::check_is_running(output));

    let output = "
        {
            domain = gui/501 [100003]
            asid = 100003
        }
        ";
    assert!(!LaunchAgent::check_is_running(output));
}

#[test]
fn test_new_defaults() {
    let agent = LaunchAgent::new("co.example.app");
    assert_eq!(agent.label, "co.example.app");
    assert!(agent.program_arguments.is_empty());
    assert_eq!(agent.standard_out_path, "/dev/null");
    assert_eq!(agent.standard_error_path, "/dev/null");
    assert!(!agent.keep_alive);
    assert!(!agent.run_at_load);
    assert_eq!(agent.process_type, ProcessType::Standard);
}

#[test]
fn test_exact_command_strings() {
    let agent = LaunchAgent::new("test");
    let home = "/Users/x";
    assert_eq!(
        agent.format_bootstrap_command(501, home),
        "launchctl bootstrap gui/501 '/Users/x/Library/LaunchAgents/test.plist'"
    );
    assert_eq!(
        agent.format_boot_out_command(501, home),
        "launchctl bootout gui/501 '/Users/x/Library/LaunchAgents/test.plist'"
    );
    assert_eq!(agent.format_print_command(501), "launchctl print gui/501/test");
    assert_eq!(agent.format_command("", 501, home), "");
}

#[test]
fn test_uid_rendering_edges() {
    let agent = LaunchAgent::new("a");
    assert_eq!(agent.format_print_command(0), "launchctl print gui/0/a");
    assert_eq!(
        agent.format_print_command(u32::MAX),
        "launchctl print gui/4294967295/a"
    );
    assert_eq!(agent.format_print_command(1000), "launchctl print gui/1000/a");
}

#[test]
fn test_serialized_form_exact() {
    let agent = LaunchAgent::new("co.example.exact");
    let mut expected = String::new();
    for line in [
        "<?xml version=\"1.0\" encoding=\"UTF-8\"?>",
        "<!DOCTYPE plist PUBLIC \"-//Apple//DTD PLIST 1.0//EN\" \"http://www.apple.com/DTDs/PropertyList-1.0.dtd\">",
        "<plist version=\"1.0\">",
        "<dict>",
        "\t<key>Label</key>",
        "\t<string>co.example.exact</string>",
        "\t<key>ProgramArguments</key>",
        "\t<array/>",
        "\t<key>StandardOutPath</key>",
        "\t<string>/dev/null</string>",
        "\t<key>StandardErrorPath</key>",
        "\t<string>/dev/null</string>",
        "\t<key>KeepAlive</key>",
        "\t<false/>",
        "\t<key>RunAtLoad</key>",
        "\t<false/>",
        "\t<key>ProcessType</key>",
        "\t<string>standard</string>",
        "</dict>",
        "</plist>",
    ] {
        expected.push_str(line);
        expected.push('\n');
    }
    expected.pop();
    assert_eq!(agent.to_plist_xml(), expected);
}

#[test]
fn test_round_trip_example() {
    let agent = LaunchAgent {
        label: "co.example.test".to_string(),
        program_arguments: vec!["/bin/sleep".to_string(), "1".to_string()],
        standard_out_path: "/dev/null".to_string(),
        standard_error_path: "/dev/null".to_string(),
        keep_alive: false,
        run_at_load: false,
        process_type: ProcessType::Standard,
    };
    let xml = agent.to_plist_xml();
    let back = LaunchAgent::from_plist_xml(&xml).unwrap();
    assert!(agents_equal(&agent, &back));
}

#[test]
fn test_round_trip_all_classes() {
    for pt in [
        ProcessType::Background,
        ProcessType::Standard,
        ProcessType::Adaptive,
        ProcessType::Interactive,
    ] {
        let agent = LaunchAgent {
            label: "co.example.classes".to_string(),
            program_arguments: vec!["/bin/echo".to_string()],
            standard_out_path: "/tmp/out.log".to_string(),
            standard_error_path: "/tmp/err.log".to_string(),
            keep_alive: true,
            run_at_load: true,
            process_type: pt,
        };
        let back = LaunchAgent::from_plist_xml(&agent.to_plist_xml()).unwrap();
        assert!(agents_equal(&agent, &back));
    }
}

#[test]
fn test_round_trip_empty_and_many_args() {
    let mut agent = LaunchAgent::new("co.example.args");
    let back = LaunchAgent::from_plist_xml(&agent.to_plist_xml()).unwrap();
    assert!(agents_equal(&agent, &back));

    agent.program_arguments = vec![
        "/usr/bin/env".to_string(),
        "sh".to_string(),
        "-c".to_string(),
        "echo hello & echo world".to_string(),
        String::new(),
    ];
    let back = LaunchAgent::from_plist_xml(&agent.to_plist_xml()).unwrap();
    assert!(agents_equal(&agent, &back));
}

#[test]
fn test_round_trip_special_characters() {
    let agent = LaunchAgent {
        label: "co.example.<odd>&co".to_string(),
        program_arguments: vec![
            "/bin/sh".to_string(),
            "-c".to_string(),
            "test 2 < 3 && echo 'a > b'".to_string(),
        ],
        standard_out_path: "/tmp/out < err & misc".to_string(),
        standard_error_path: "/tmp/<>&".to_string(),
        keep_alive: false,
        run_at_load: true,
        process_type: ProcessType::Adaptive,
    };
    let xml = agent.to_plist_xml();
    assert!(xml.contains("co.example.&lt;odd&gt;&amp;co"));
    assert!(!xml.contains("<odd>"));
    let back = LaunchAgent::from_plist_xml(&xml).unwrap();
    assert!(agents_equal(&agent, &back));
}

#[test]
fn test_bare_entities_are_rejected() {
    let agent = LaunchAgent::new("co.example.entities");
    let xml = agent
        .to_plist_xml()
        .replace("<string>co.example.entities</string>", "<string>a & b</string>");
    assert!(matches!(
        LaunchAgent::from_plist_xml(&xml),
        Err(LaunchAgentError::FormatError)
    ));
    let xml2 = agent
        .to_plist_xml()
        .replace("<string>co.example.entities</string>", "<string>a &copy; b</string>");
    assert!(matches!(
        LaunchAgent::from_plist_xml(&xml2),
        Err(LaunchAgentError::FormatError)
    ));
}

#[test]
fn test_builder_setters_before_label() {
    let agent = LaunchAgentBuilder::new()
        .keep_alive(true)
        .arg("/bin/date")
        .process_type(ProcessType::Background)
        .label("co.example.order")
        .build()
        .unwrap();
    assert_eq!(agent.label, "co.example.order");
    assert_eq!(agent.program_arguments, vec!["/bin/date"]);
    assert!(agent.keep_alive);
    assert_eq!(agent.process_type, ProcessType::Background);
}

#[test]
fn test_unknown_process_type_is_rejected() {
    let agent = LaunchAgent::new("co.example.bad");
    let xml = agent
        .to_plist_xml()
        .replace("<string>standard</string>", "<string>turbo</string>");
    let err = LaunchAgent::from_plist_xml(&xml).unwrap_err();
    assert!(matches!(err, LaunchAgentError::FormatError));
}

#[test]
fn test_malformed_text_is_rejected() {
    assert!(matches!(
        LaunchAgent::from_plist_xml(""),
        Err(LaunchAgentError::FormatError)
    ));
    assert!(matches!(
        LaunchAgent::from_plist_xml("not a plist"),
        Err(LaunchAgentError::FormatError)
    ));
    let agent = LaunchAgent::new("co.example.trailing");
    let mut xml = agent.to_plist_xml();
    xml.push('\n');
    assert!(matches!(
        LaunchAgent::from_plist_xml(&xml),
        Err(LaunchAgentError::FormatError)
    ));
}

#[test]
fn test_builder_missing_label() {
    let err = LaunchAgentBuilder::new().build().unwrap_err();
    assert_eq!(err, BuilderError::MissingRequiredField);
}

#[test]
fn test_builder_label_only_defaults() {
    let agent = LaunchAgentBuilder::new().label("co.example.built").build().unwrap();
    assert_eq!(agent.label, "co.example.built");
    assert!(agent.program_arguments.is_empty());
    assert_eq!(agent.standard_out_path, "/dev/null");
    assert_eq!(agent.standard_error_path, "/dev/null");
    assert!(!agent.keep_alive);
    assert!(!agent.run_at_load);
    assert_eq!(agent.process_type, ProcessType::Standard);
}

#[test]
fn test_builder_full() {
    let agent = LaunchAgentBuilder::new()
        .label("co.example.full")
        .arg("/bin/sleep")
        .arg("5")
        .standard_out_path("/tmp/o")
        .standard_error_path("/tmp/e")
        .keep_alive(true)
        .run_at_load(true)
        .process_type(ProcessType::Adaptive)
        .build()
        .unwrap();
    assert_eq!(agent.label, "co.example.full");
    assert_eq!(agent.program_arguments, vec!["/bin/sleep", "5"]);
    assert_eq!(agent.standard_out_path, "/tmp/o");
    assert_eq!(agent.standard_error_path, "/tmp/e");
    assert!(agent.keep_alive);
    assert!(agent.run_at_load);
    assert_eq!(agent.process_type, ProcessType::Adaptive);
}

#[test]
fn test_process_type_tokens() {
    assert_eq!(ProcessType::Background.token(), "background");
    assert_eq!(ProcessType::Standard.token(), "standard");
    assert_eq!(ProcessType::Adaptive.token(), "adaptive");
    assert_eq!(ProcessType::Interactive.token(), "interactive");
}

#[test]
fn test_process_type_from_token() {
    assert_eq!(ProcessType::from_token("background"), Some(ProcessType::Background));
    assert_eq!(ProcessType::from_token("standard"), Some(ProcessType::Standard));
    assert_eq!(ProcessType::from_token("adaptive"), Some(ProcessType::Adaptive));
    assert_eq!(ProcessType::from_token("interactive"), Some(ProcessType::Interactive));
    assert_eq!(ProcessType::from_token("turbo"), None);
    assert_eq!(ProcessType::from_token("Standard"), None);
    assert_eq!(ProcessType::from_token(""), None);
    assert_eq!(ProcessType::from_token("standardx"), None);
}

#[test]
fn test_running_state_markers() {
    assert!(LaunchAgent::check_is_running("state = running"));
    assert!(LaunchAgent::check_is_running("x\nstate = running\ny"));
    assert!(!LaunchAgent::check_is_running("asid = 100003"));
    assert!(!LaunchAgent::check_is_running(""));
    assert!(!LaunchAgent::check_is_running("state = stopped"));
}
