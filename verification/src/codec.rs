use vstd::prelude::*;
use vstd::string::StrSliceExecFns;
use vstd::string::StringExecFns;

use crate::LaunchAgentError;
use crate::agent::AgentView;
use crate::agent::LaunchAgent;
use crate::agent::ProcessType;
use crate::agent::token_view;
use crate::text::contains_at;
use crate::text::expect;
use crate::text::find_lt;
use crate::text::match_at;

verus! {

// The canonical descriptor file is the plist XML rendering of the
// record: fixed prologue, the seven keys in fixed order with fixed
// capitalization, tab indentation, booleans as empty elements and the
// scheduling class as its lowercase token. In string values the
// characters `&`, `<` and `>` are written as XML entities; everything
// else passes through verbatim.
/// The sequence holds no `<` character. What a descriptor file holds
/// between tags has this property, since `<` is what ends an element.
pub open spec fn no_lt(s: Seq<char>) -> bool {
    forall|k: int| 0 <= k < s.len() ==> s[k] != '<'
}

/// The character is written as an XML entity rather than verbatim.
pub open spec fn special_char(c: char) -> bool {
    c == '&' || c == '<' || c == '>'
}

/// The XML rendering of one character: an entity for the three special
/// characters, the character itself otherwise.
pub open spec fn esc_char(c: char) -> Seq<char> {
    if c == '&' {
        "&amp;"@
    } else if c == '<' {
        "&lt;"@
    } else if c == '>' {
        "&gt;"@
    } else {
        seq![c]
    }
}

/// The XML rendering of a string value: every character in order, the
/// special ones as entities. The result never contains `<` or `>`, and
/// `&` only at the head of an entity, so a rendered value is exactly
/// recoverable and never ends the surrounding element early.
pub open spec fn esc(s: Seq<char>) -> Seq<char>
    decreases s.len(),
{
    if s.len() == 0 {
        Seq::<char>::empty()
    } else {
        esc_char(s.first()) + esc(s.drop_first())
    }
}

/// One boolean element, on its own indented line.
pub open spec fn bool_view(b: bool) -> Seq<char> {
    if b {
        "\t<true/>\n"@
    } else {
        "\t<false/>\n"@
    }
}

/// The argument list's `<string>` lines, in order.
pub open spec fn args_entries(args: Seq<Seq<char>>) -> Seq<char>
    decreases args.len(),
{
    if args.len() == 0 {
        Seq::<char>::empty()
    } else {
        "\t\t<string>"@ + (esc(args.first()) + ("</string>\n"@ + args_entries(args.drop_first())))
    }
}

/// The `ProgramArguments` value: a self-closed empty array, or an array
/// element holding one `<string>` line per argument.
pub open spec fn args_block(args: Seq<Seq<char>>) -> Seq<char> {
    if args.len() == 0 {
        "\t<array/>\n"@
    } else {
        "\t<array>\n"@ + (args_entries(args) + "\t</array>\n"@)
    }
}

/// Everything after the `ProcessType` key: the token and the closing
/// tags.
pub open spec fn tail_pt(v: AgentView) -> Seq<char> {
    "\t<key>ProcessType</key>\n\t<string>"@ + (token_view(v.process_type)
        + "</string>\n</dict>\n</plist>"@)
}

/// Everything after the `KeepAlive` value.
pub open spec fn tail_ral(v: AgentView) -> Seq<char> {
    "\t<key>RunAtLoad</key>\n"@ + (bool_view(v.run_at_load) + tail_pt(v))
}

/// Everything after the `StandardErrorPath` value.
pub open spec fn tail_ka(v: AgentView) -> Seq<char> {
    "</string>\n\t<key>KeepAlive</key>\n"@ + (bool_view(v.keep_alive) + tail_ral(v))
}

/// Everything after the `StandardOutPath` value.
pub open spec fn tail_err(v: AgentView) -> Seq<char> {
    "</string>\n\t<key>StandardErrorPath</key>\n\t<string>"@ + (esc(v.standard_error_path)
        + tail_ka(v))
}

/// Everything after the `ProgramArguments` block.
pub open spec fn tail_out(v: AgentView) -> Seq<char> {
    "\t<key>StandardOutPath</key>\n\t<string>"@ + (esc(v.standard_out_path) + tail_err(v))
}

/// Everything after the label value.
pub open spec fn tail_arr(v: AgentView) -> Seq<char> {
    "</string>\n\t<key>ProgramArguments</key>\n"@ + (args_block(v.program_arguments) + tail_out(
        v,
    ))
}

/// The full canonical descriptor file for a descriptor value.
pub open spec fn plist_view(v: AgentView) -> Seq<char> {
    "<?xml version=\"1.0\" encoding=\"UTF-8\"?>\n<!DOCTYPE plist PUBLIC \"-//Apple//DTD PLIST 1.0//EN\" \"http://www.apple.com/DTDs/PropertyList-1.0.dtd\">\n<plist version=\"1.0\">\n<dict>\n\t<key>Label</key>\n\t<string>"@
        + (esc(v.label) + tail_arr(v))
}

/// The text is the canonical descriptor file of the value.
pub open spec fn canonical_for(s: Seq<char>, v: AgentView) -> bool {
    s == plist_view(v)
}

/// Adjacent subranges concatenate.
proof fn lemma_sub_join(s: Seq<char>, a: int, b: int, c: int, x: Seq<char>, y: Seq<char>)
    requires
        0 <= a <= b <= c <= s.len(),
        s.subrange(a, b) == x,
        s.subrange(b, c) == y,
    ensures
        s.subrange(a, c) == x + y,
{
    assert(s.subrange(a, c) =~= x + y);
}

/// Where a suffix of `s` is a concatenation, the two parts stand at
/// their own subranges.
proof fn lemma_parts(s: Seq<char>, i: int, head: Seq<char>, rest: Seq<char>)
    requires
        0 <= i <= s.len(),
        s.subrange(i, s.len() as int) == head + rest,
    ensures
        i + head.len() + rest.len() == s.len(),
        s.subrange(i, i + head.len()) == head,
        s.subrange(i + head.len(), s.len() as int) == rest,
{
    assert(s.subrange(i, s.len() as int).len() == head.len() + rest.len());
    assert forall|k: int| 0 <= k < head.len() implies s.subrange(i, i + head.len())[k]
        == head[k] by {
        assert((head + rest)[k] == head[k]);
        assert(s.subrange(i, s.len() as int)[k] == s[i + k]);
        assert(s.subrange(i, i + head.len())[k] == s[i + k]);
    }
    assert(s.subrange(i, i + head.len()) =~= head);
    assert forall|k: int| 0 <= k < rest.len() implies s.subrange(i + head.len(), s.len() as int)[k]
        == rest[k] by {
        assert((head + rest)[head.len() + k] == rest[k]);
        assert(s.subrange(i, s.len() as int)[head.len() + k] == s[i + head.len() + k]);
        assert(s.subrange(i + head.len(), s.len() as int)[k] == s[i + head.len() + k]);
    }
    assert(s.subrange(i + head.len(), s.len() as int) =~= rest);
}

/// Where a suffix of `s` is a `<`-free content followed by a part that
/// opens with `<`, the first `<` at or after the suffix's start stands
/// exactly at the end of the content.
proof fn lemma_first_lt(s: Seq<char>, i: int, j: int, content: Seq<char>, rest: Seq<char>)
    requires
        0 <= i <= s.len(),
        s.subrange(i, s.len() as int) == content + rest,
        no_lt(content),
        rest.len() > 0,
        rest[0] == '<',
        i <= j <= s.len(),
        forall|k: int| i <= k < j ==> s[k] != '<',
        j < s.len() ==> s[j] == '<',
    ensures
        j == i + content.len(),
        s.subrange(i, j) == content,
        s.subrange(j, s.len() as int) == rest,
{
    lemma_parts(s, i, content, rest);
    assert(s[i + content.len()] == s.subrange(i + content.len(), s.len() as int)[0]);
    assert(s[i + content.len()] == '<');
    if j < i + content.len() {
        assert(s[j] == s.subrange(i, i + content.len())[j - i]);
        assert(s[j] != '<');
        assert(false);
    }
    if j > i + content.len() {
        assert(s[i + content.len()] != '<');
        assert(false);
    }
    assert(s.subrange(i, j) == content);
    assert(s.subrange(j, s.len() as int) == rest);
}

/// Concatenation of character sequences is associative.
proof fn seq_assoc(a: Seq<char>, b: Seq<char>, c: Seq<char>)
    ensures
        (a + b) + c == a + (b + c),
{
    assert((a + b) + c =~= a + (b + c));
}

/// Appending one argument appends its `<string>` line.
proof fn lemma_args_entries_push(args: Seq<Seq<char>>, x: Seq<char>)
    ensures
        args_entries(args.push(x)) == args_entries(args) + "\t\t<string>"@ + esc(x)
            + "</string>\n"@,
    decreases args.len(),
{
    if args.len() == 0 {
        assert(args.push(x).first() == x);
        assert(args.push(x).drop_first() =~= Seq::<Seq<char>>::empty());
        assert(args_entries(Seq::<Seq<char>>::empty()) == Seq::<char>::empty());
        assert(args_entries(args.push(x)) =~= args_entries(args) + "\t\t<string>"@ + esc(x)
            + "</string>\n"@);
    } else {
        let f = args.first();
        let d = args.drop_first();
        assert(args.push(x).first() == f);
        assert(args.push(x).drop_first() =~= d.push(x));
        lemma_args_entries_push(d, x);
        assert(args_entries(args.push(x)) == "\t\t<string>"@ + (esc(f) + ("</string>\n"@
            + (args_entries(d) + "\t\t<string>"@ + esc(x) + "</string>\n"@))));
        assert("\t\t<string>"@ + (esc(f) + ("</string>\n"@ + (args_entries(d) + "\t\t<string>"@
            + esc(x) + "</string>\n"@))) =~= ("\t\t<string>"@ + (esc(f) + ("</string>\n"@
            + args_entries(d)))) + "\t\t<string>"@ + esc(x) + "</string>\n"@);
        assert(args_entries(args) == "\t\t<string>"@ + (esc(f) + ("</string>\n"@
            + args_entries(d))));
    }
}

/// Rendering distributes over concatenation.
proof fn lemma_esc_concat(a: Seq<char>, b: Seq<char>)
    ensures
        esc(a + b) == esc(a) + esc(b),
    decreases a.len(),
{
    if a.len() == 0 {
        assert(a + b =~= b);
        assert(esc(a) + esc(b) =~= esc(b));
    } else {
        assert((a + b).first() == a.first());
        assert((a + b).drop_first() =~= a.drop_first() + b);
        lemma_esc_concat(a.drop_first(), b);
        seq_assoc(esc_char(a.first()), esc(a.drop_first()), esc(b));
    }
}

/// A string without special characters is rendered as itself.
proof fn lemma_esc_plain(s: Seq<char>)
    requires
        forall|k: int| 0 <= k < s.len() ==> !special_char(s[k]),
    ensures
        esc(s) == s,
    decreases s.len(),
{
    if s.len() > 0 {
        assert(!special_char(s[0]));
        assert(esc_char(s.first()) == seq![s.first()]);
        assert forall|k: int| 0 <= k < s.drop_first().len() implies !special_char(
            s.drop_first()[k],
        ) by {
            assert(s.drop_first()[k] == s[k + 1]);
        }
        lemma_esc_plain(s.drop_first());
        assert(seq![s.first()] + s.drop_first() =~= s);
    }
}

/// A rendered value never contains `<`.
proof fn lemma_esc_no_lt(s: Seq<char>)
    ensures
        no_lt(esc(s)),
    decreases s.len(),
{
    reveal_strlit("&amp;");
    reveal_strlit("&lt;");
    reveal_strlit("&gt;");
    if s.len() > 0 {
        lemma_esc_no_lt(s.drop_first());
        let h = esc_char(s.first());
        assert(no_lt(h)) by {
            assert forall|k: int| 0 <= k < h.len() implies h[k] != '<' by {
                if special_char(s.first()) {
                    assert(k == 0 || k == 1 || k == 2 || k == 3 || k == 4);
                }
            }
        }
        assert forall|k: int| 0 <= k < esc(s).len() implies esc(s)[k] != '<' by {
            if k < h.len() {
                assert(esc(s)[k] == h[k]);
            } else {
                assert(esc(s)[k] == esc(s.drop_first())[k - h.len()]);
            }
        }
    }
}

/// A rendered value is never empty unless the value is.
proof fn lemma_esc_empty(s: Seq<char>)
    ensures
        esc(s).len() == 0 ==> s.len() == 0,
{
    reveal_strlit("&amp;");
    reveal_strlit("&lt;");
    reveal_strlit("&gt;");
    if s.len() > 0 {
        assert(esc_char(s.first()).len() >= 1);
        assert(esc(s).len() >= 1);
    }
}

/// Where a prefix of a rendered value is free of special characters,
/// it is a verbatim copy of the value's own prefix, and the rest of
/// the rendering renders the rest of the value.
proof fn lemma_esc_align(seg: Seq<char>, u: Seq<char>, m: int)
    requires
        seg == esc(u),
        0 <= m <= seg.len(),
        forall|k: int| 0 <= k < m ==> !special_char(seg[k]),
    ensures
        m <= u.len(),
        u.take(m) == seg.take(m),
        esc(u.skip(m)) == seg.skip(m),
    decreases m,
{
    reveal_strlit("&amp;");
    reveal_strlit("&lt;");
    reveal_strlit("&gt;");
    if m == 0 {
        assert(u.take(0) =~= seg.take(0));
        assert(u.skip(0) =~= u);
        assert(seg.skip(0) =~= seg);
    } else {
        lemma_esc_empty(u);
        assert(u.len() > 0);
        if special_char(u.first()) {
            assert(seg[0] == esc_char(u.first())[0]);
            assert(seg[0] == '&');
            assert(special_char(seg[0]));
            assert(false);
        }
        assert(esc_char(u.first()) == seq![u.first()]);
        assert(seg[0] == u.first());
        let seg2 = seg.drop_first();
        let u2 = u.drop_first();
        assert(seg2 =~= esc(u2)) by {
            assert(seq![u.first()] + esc(u2) == seg);
        }
        assert forall|k: int| 0 <= k < m - 1 implies !special_char(seg2[k]) by {
            assert(seg2[k] == seg[k + 1]);
        }
        lemma_esc_align(seg2, u2, m - 1);
        assert(u.take(m) =~= seg.take(m)) by {
            assert(forall|k: int|
                1 <= k < m ==> u.take(m)[k] == u2.take(m - 1)[k - 1] && seg.take(m)[k]
                    == seg2.take(m - 1)[k - 1]);
        }
        assert(u.skip(m) =~= u2.skip(m - 1));
        assert(seg.skip(m) =~= seg2.skip(m - 1));
    }
}

/// The position of the first special character at or after `i`, or `n`
/// if there is none.
fn find_special(s: &str, n: usize, i: usize) -> (j: usize)
    requires
        n == s@.len(),
        i <= n,
    ensures
        i <= j <= n,
        forall|k: int| i <= k < j ==> !special_char(s@[k]),
        j < n ==> special_char(s@[j as int]),
{
    let mut j: usize = i;
    while j < n
        invariant
            n == s@.len(),
            i <= j <= n,
            forall|k: int| i <= k < j ==> !special_char(s@[k]),
        decreases n - j,
    {
        let c = s.get_char(j);
        if c == '&' || c == '<' || c == '>' {
            return j;
        }
        j += 1;
    }
    j
}

/// Render a string value for a descriptor file: the three special
/// characters become entities, everything else is copied.
fn escape(s: &str) -> (r: String)
    ensures
        r@ == esc(s@),
{
    let n = s.unicode_len();
    let mut r = String::new();
    let mut i: usize = 0;
    proof {
        assert(s@.take(0) =~= Seq::<char>::empty());
    }
    while i < n
        invariant
            n == s@.len(),
            i <= n,
            r@ == esc(s@.take(i as int)),
        decreases n - i,
    {
        let j = find_special(s, n, i);
        if j > i {
            let run = s.substring_char(i, j);
            r.append(run);
            proof {
                let a = s@.take(i as int);
                let b = s@.subrange(i as int, j as int);
                assert(s@.take(j as int) =~= a + b);
                lemma_esc_concat(a, b);
                assert forall|k: int| 0 <= k < b.len() implies !special_char(b[k]) by {
                    assert(b[k] == s@[i + k]);
                }
                lemma_esc_plain(b);
            }
            i = j;
        } else {
            let c = s.get_char(i);
            if c == '&' {
                r.append("&amp;");
            } else if c == '<' {
                r.append("&lt;");
            } else {
                r.append("&gt;");
            }
            proof {
                let a = s@.take(i as int);
                let b = seq![s@[i as int]];
                assert(s@.take(i as int + 1) =~= a + b);
                lemma_esc_concat(a, b);
                assert(b.first() == s@[i as int]);
                assert(b.drop_first() =~= Seq::<char>::empty());
                assert(esc(Seq::<char>::empty()) == Seq::<char>::empty());
                assert(esc(b) =~= esc_char(s@[i as int]));
                assert(special_char(s@[i as int]));
            }
            i += 1;
        }
    }
    proof {
        assert(s@.take(n as int) =~= s@);
    }
    r
}

/// Recover a string value from its rendering between two positions.
/// Succeeds exactly when the range is the rendering of some string,
/// and then returns exactly that string.
#[verifier::rlimit(100)]
fn unescape(s: &str, n: usize, from: usize, to: usize) -> (r: Option<String>)
    requires
        n == s@.len(),
        from <= to <= n,
    ensures
        r matches Some(t) ==> s@.subrange(from as int, to as int) == esc(t@),
        forall|u: Seq<char>|
            s@.subrange(from as int, to as int) == #[trigger] esc(u) ==> (r matches Some(t) && t@
                == u),
    decreases to - from,
{
    proof {
        reveal_strlit("&amp;");
        reveal_strlit("&lt;");
        reveal_strlit("&gt;");
        reveal_strlit("&");
        reveal_strlit("<");
        reveal_strlit(">");
    }
    let ghost seg = s@.subrange(from as int, to as int);
    if from >= to {
        proof {
            assert(seg =~= Seq::<char>::empty());
            assert forall|u: Seq<char>| seg == #[trigger] esc(u) implies u
                =~= Seq::<char>::empty() by {
                lemma_esc_empty(u);
            }
        }
        return Some(String::new());
    }
    let j0 = find_special(s, n, from);
    let j = if j0 < to {
        j0
    } else {
        to
    };
    if j > from {
        let run = s.substring_char(from, j).to_owned();
        proof {
            assert forall|u: Seq<char>| seg == #[trigger] esc(u) implies (j - from <= u.len()
                && u.take(j - from) == run@ && s@.subrange(j as int, to as int) == esc(
                u.skip(j - from),
            )) by {
                let m = j - from;
                assert forall|k: int| 0 <= k < m implies !special_char(seg[k]) by {
                    assert(seg[k] == s@[from + k]);
                }
                lemma_esc_align(seg, u, m);
                assert(seg.take(m) =~= s@.subrange(from as int, j as int));
                assert(seg.skip(m) =~= s@.subrange(j as int, to as int));
            }
        }
        match unescape(s, n, j, to) {
            Some(rt) => {
                let t = run.concat(rt.as_str());
                proof {
                    assert(seg =~= s@.subrange(from as int, j as int) + s@.subrange(
                        j as int,
                        to as int,
                    ));
                    lemma_esc_concat(run@, rt@);
                    assert forall|k: int| 0 <= k < run@.len() implies !special_char(run@[k]) by {
                        assert(run@[k] == s@[from + k]);
                    }
                    lemma_esc_plain(run@);
                    assert forall|u: Seq<char>| seg == #[trigger] esc(u) implies t@ == u by {
                        assert(u.take(j - from) + u.skip(j - from) =~= u);
                    }
                }
                Some(t)
            },
            None => {
                proof {
                    assert forall|u: Seq<char>| seg != #[trigger] esc(u) by {
                        if seg == esc(u) {
                            assert(s@.subrange(j as int, to as int) == esc(u.skip(j - from)));
                            assert(false);
                        }
                    }
                }
                None
            },
        }
    } else {
        // a special character stands at `from`
        let c = s.get_char(from);
        proof {
            assert(special_char(s@[from as int]));
            assert forall|u: Seq<char>| seg == #[trigger] esc(u) implies (u.len() > 0
                && special_char(u.first()) && seg == esc_char(u.first()) + esc(
                u.drop_first(),
            )) by {
                lemma_esc_empty(u);
                if !special_char(u.first()) {
                    assert(esc_char(u.first()) == seq![u.first()]);
                    assert(seg[0] == u.first());
                    assert(false);
                }
            }
        }
        if c == '&' {
            if match_at(s, n, from, "&amp;") && from + 5 <= to {
                proof {
                    assert forall|u: Seq<char>| seg == #[trigger] esc(u) implies (u.first() == '&'
                        && s@.subrange(from as int + 5, to as int) == esc(u.drop_first())) by {
                        assert(seg[1] == s@[from + 1]);
                        assert(s@[from + 1] == "&amp;"@[1]);
                        assert(esc_char(u.first()).len() > 1);
                        assert(seg[1] == esc_char(u.first())[1]);
                        assert(u.first() == '&');
                        assert(contains_at(s@, esc(u), from as int));
                        lemma_parts_at(s@, from as int, "&amp;"@, esc(u.drop_first()));
                        assert(s@.subrange(from as int + 5, to as int) =~= esc(u.drop_first()));
                    }
                }
                match unescape(s, n, from + 5, to) {
                    Some(rt) => {
                        let mut t = String::from_str("&");
                        t.append(rt.as_str());
                        proof {
                            assert("&"@ =~= seq!['&']);
                            assert(t@.first() == '&');
                            assert(t@.drop_first() =~= rt@);
                            assert(esc(t@) == "&amp;"@ + esc(rt@));
                            assert(seg =~= s@.subrange(from as int, from as int + 5) + s@.subrange(
                                from as int + 5,
                                to as int,
                            ));
                            assert forall|u: Seq<char>| seg == #[trigger] esc(u) implies t@
                                == u by {
                                assert(seq!['&'] + u.drop_first() =~= u);
                            }
                        }
                        Some(t)
                    },
                    None => {
                        proof {
                            assert forall|u: Seq<char>| seg != #[trigger] esc(u) by {
                                if seg == esc(u) {
                                    assert(false);
                                }
                            }
                        }
                        None
                    },
                }
            } else if match_at(s, n, from, "&lt;") && from + 4 <= to {
                proof {
                    assert forall|u: Seq<char>| seg == #[trigger] esc(u) implies (u.first() == '<'
                        && s@.subrange(from as int + 4, to as int) == esc(u.drop_first())) by {
                        assert(seg[1] == s@[from + 1]);
                        assert(s@[from + 1] == "&lt;"@[1]);
                        assert(esc_char(u.first()).len() > 1);
                        assert(seg[1] == esc_char(u.first())[1]);
                        assert(u.first() == '<');
                        assert(contains_at(s@, esc(u), from as int));
                        lemma_parts_at(s@, from as int, "&lt;"@, esc(u.drop_first()));
                        assert(s@.subrange(from as int + 4, to as int) =~= esc(u.drop_first()));
                    }
                }
                match unescape(s, n, from + 4, to) {
                    Some(rt) => {
                        let mut t = String::from_str("<");
                        t.append(rt.as_str());
                        proof {
                            assert("<"@ =~= seq!['<']);
                            assert(t@.first() == '<');
                            assert(t@.drop_first() =~= rt@);
                            assert(esc(t@) == "&lt;"@ + esc(rt@));
                            assert(seg =~= s@.subrange(from as int, from as int + 4) + s@.subrange(
                                from as int + 4,
                                to as int,
                            ));
                            assert forall|u: Seq<char>| seg == #[trigger] esc(u) implies t@
                                == u by {
                                assert(seq!['<'] + u.drop_first() =~= u);
                            }
                        }
                        Some(t)
                    },
                    None => {
                        proof {
                            assert forall|u: Seq<char>| seg != #[trigger] esc(u) by {
                                if seg == esc(u) {
                                    assert(false);
                                }
                            }
                        }
                        None
                    },
                }
            } else if match_at(s, n, from, "&gt;") && from + 4 <= to {
                proof {
                    assert forall|u: Seq<char>| seg == #[trigger] esc(u) implies (u.first() == '>'
                        && s@.subrange(from as int + 4, to as int) == esc(u.drop_first())) by {
                        assert(seg[1] == s@[from + 1]);
                        assert(s@[from + 1] == "&gt;"@[1]);
                        assert(esc_char(u.first()).len() > 1);
                        assert(seg[1] == esc_char(u.first())[1]);
                        assert(u.first() == '>');
                        assert(contains_at(s@, esc(u), from as int));
                        lemma_parts_at(s@, from as int, "&gt;"@, esc(u.drop_first()));
                        assert(s@.subrange(from as int + 4, to as int) =~= esc(u.drop_first()));
                    }
                }
                match unescape(s, n, from + 4, to) {
                    Some(rt) => {
                        let mut t = String::from_str(">");
                        t.append(rt.as_str());
                        proof {
                            assert(">"@ =~= seq!['>']);
                            assert(t@.first() == '>');
                            assert(t@.drop_first() =~= rt@);
                            assert(esc(t@) == "&gt;"@ + esc(rt@));
                            assert(seg =~= s@.subrange(from as int, from as int + 4) + s@.subrange(
                                from as int + 4,
                                to as int,
                            ));
                            assert forall|u: Seq<char>| seg == #[trigger] esc(u) implies t@
                                == u by {
                                assert(seq!['>'] + u.drop_first() =~= u);
                            }
                        }
                        Some(t)
                    },
                    None => {
                        proof {
                            assert forall|u: Seq<char>| seg != #[trigger] esc(u) by {
                                if seg == esc(u) {
                                    assert(false);
                                }
                            }
                        }
                        None
                    },
                }
            } else {
                proof {
                    assert forall|u: Seq<char>| seg != #[trigger] esc(u) by {
                        if seg == esc(u) {
                            assert(seg[1] == esc_char(u.first())[1]);
                            assert(seg[1] == s@[from + 1]);
                            if u.first() == '&' {
                                assert(contains_at(s@, "&amp;"@, from as int)) by {
                                    lemma_parts_at(
                                        s@,
                                        from as int,
                                        "&amp;"@,
                                        esc(u.drop_first()),
                                    );
                                }
                            } else if u.first() == '<' {
                                assert(contains_at(s@, "&lt;"@, from as int)) by {
                                    lemma_parts_at(s@, from as int, "&lt;"@, esc(u.drop_first()));
                                }
                            } else {
                                assert(contains_at(s@, "&gt;"@, from as int)) by {
                                    lemma_parts_at(s@, from as int, "&gt;"@, esc(u.drop_first()));
                                }
                            }
                            assert(false);
                        }
                    }
                }
                None
            }
        } else {
            proof {
                assert forall|u: Seq<char>| seg != #[trigger] esc(u) by {
                    if seg == esc(u) {
                        assert(seg[0] == esc_char(u.first())[0]);
                        assert(seg[0] == '&');
                        assert(seg[0] == s@[from as int]);
                        assert(false);
                    }
                }
            }
            None
        }
    }
}

impl LaunchAgent {
    /// Render this descriptor as its canonical plist XML file content.
    /// In string values, `&`, `<` and `>` are written as XML entities.
    #[verifier::rlimit(60)]
    pub fn to_plist_xml(&self) -> (r: String)
        ensures
            r@ == plist_view(self@),
    {
        let ghost v = self@;
        let mut r = String::from_str(
            "<?xml version=\"1.0\" encoding=\"UTF-8\"?>\n<!DOCTYPE plist PUBLIC \"-//Apple//DTD PLIST 1.0//EN\" \"http://www.apple.com/DTDs/PropertyList-1.0.dtd\">\n<plist version=\"1.0\">\n<dict>\n\t<key>Label</key>\n\t<string>",
        );
        let esc_label = escape(self.label.as_str());
        r.append(esc_label.as_str());
        r.append("</string>\n\t<key>ProgramArguments</key>\n");
        let ghost pre = r@;
        if self.program_arguments.len() == 0 {
            r.append("\t<array/>\n");
        } else {
            r.append("\t<array>\n");
            let ghost arr_pre = r@;
            let mut i: usize = 0;
            while i < self.program_arguments.len()
                invariant
                    i <= self.program_arguments.len(),
                    self.program_arguments.deep_view() == v.program_arguments,
                    arr_pre == pre + "\t<array>\n"@,
                    r@ == arr_pre + args_entries(v.program_arguments.take(i as int)),
                decreases self.program_arguments.len() - i,
            {
                r.append("\t\t<string>");
                let esc_arg = escape(self.program_arguments[i].as_str());
                r.append(esc_arg.as_str());
                r.append("</string>\n");
                proof {
                    let t = v.program_arguments.take(i as int);
                    assert(v.program_arguments.take(i as int + 1) =~= t.push(
                        v.program_arguments[i as int],
                    ));
                    lemma_args_entries_push(t, v.program_arguments[i as int]);
                    assert(r@ =~= arr_pre + args_entries(v.program_arguments.take(i as int + 1)));
                }
                i += 1;
            }
            r.append("\t</array>\n");
            proof {
                assert(v.program_arguments.take(v.program_arguments.len() as int)
                    =~= v.program_arguments);
                assert(r@ =~= pre + args_block(v.program_arguments));
            }
        }
        proof {
            assert(r@ == pre + args_block(v.program_arguments));
        }
        r.append("\t<key>StandardOutPath</key>\n\t<string>");
        let esc_out = escape(self.standard_out_path.as_str());
        r.append(esc_out.as_str());
        r.append("</string>\n\t<key>StandardErrorPath</key>\n\t<string>");
        let esc_err = escape(self.standard_error_path.as_str());
        r.append(esc_err.as_str());
        r.append("</string>\n\t<key>KeepAlive</key>\n");
        if self.keep_alive {
            r.append("\t<true/>\n");
        } else {
            r.append("\t<false/>\n");
        }
        r.append("\t<key>RunAtLoad</key>\n");
        if self.run_at_load {
            r.append("\t<true/>\n");
        } else {
            r.append("\t<false/>\n");
        }
        r.append("\t<key>ProcessType</key>\n\t<string>");
        r.append(self.process_type.token());
        r.append("</string>\n</dict>\n</plist>");
        proof {
            let hd =
                "<?xml version=\"1.0\" encoding=\"UTF-8\"?>\n<!DOCTYPE plist PUBLIC \"-//Apple//DTD PLIST 1.0//EN\" \"http://www.apple.com/DTDs/PropertyList-1.0.dtd\">\n<plist version=\"1.0\">\n<dict>\n\t<key>Label</key>\n\t<string>"@;
            let ka = "</string>\n\t<key>ProgramArguments</key>\n"@;
            let ab = args_block(v.program_arguments);
            let ko = "\t<key>StandardOutPath</key>\n\t<string>"@;
            let ke = "</string>\n\t<key>StandardErrorPath</key>\n\t<string>"@;
            let kk = "</string>\n\t<key>KeepAlive</key>\n"@;
            let kr = "\t<key>RunAtLoad</key>\n"@;
            let kp = "\t<key>ProcessType</key>\n\t<string>"@;
            let ft = "</string>\n</dict>\n</plist>"@;
            let bk = bool_view(v.keep_alive);
            let br = bool_view(v.run_at_load);
            let tk = token_view(v.process_type);
            let a0 = pre + ab;
            let a1 = a0 + ko;
            let a2 = a1 + esc(v.standard_out_path);
            let a3 = a2 + ke;
            let a4 = a3 + esc(v.standard_error_path);
            let a5 = a4 + kk;
            let a6 = a5 + bk;
            let a7 = a6 + kr;
            let a8 = a7 + br;
            let a9 = a8 + kp;
            let a10 = a9 + tk;
            assert(r@ == a10 + ft);
            seq_assoc(a9, tk, ft);
            seq_assoc(a8, kp, tk + ft);
            assert(r@ == a8 + tail_pt(v));
            seq_assoc(a7, br, tail_pt(v));
            seq_assoc(a6, kr, br + tail_pt(v));
            assert(r@ == a6 + tail_ral(v));
            seq_assoc(a5, bk, tail_ral(v));
            seq_assoc(a4, kk, bk + tail_ral(v));
            assert(r@ == a4 + tail_ka(v));
            seq_assoc(a3, esc(v.standard_error_path), tail_ka(v));
            seq_assoc(a2, ke, esc(v.standard_error_path) + tail_ka(v));
            assert(r@ == a2 + tail_err(v));
            seq_assoc(a1, esc(v.standard_out_path), tail_err(v));
            seq_assoc(a0, ko, esc(v.standard_out_path) + tail_err(v));
            assert(r@ == a0 + tail_out(v));
            seq_assoc(pre, ab, tail_out(v));
            seq_assoc(hd + esc(v.label), ka, ab + tail_out(v));
            assert(r@ == (hd + esc(v.label)) + tail_arr(v));
            seq_assoc(hd, esc(v.label), tail_arr(v));
            assert(r@ == plist_view(v));
        }
        r
    }
}

/// Like [`lemma_parts`], anchored anywhere in `s`.
proof fn lemma_parts_at(s: Seq<char>, i: int, head: Seq<char>, rest: Seq<char>)
    requires
        contains_at(s, head + rest, i),
    ensures
        contains_at(s, head, i),
        contains_at(s, rest, i + head.len()),
{
    assert forall|k: int| 0 <= k < head.len() implies s.subrange(i, i + head.len())[k]
        == head[k] by {
        assert((head + rest)[k] == head[k]);
        assert(s.subrange(i, i + head.len() + rest.len())[k] == s[i + k]);
        assert(s.subrange(i, i + head.len())[k] == s[i + k]);
    }
    assert(s.subrange(i, i + head.len()) =~= head);
    assert forall|k: int| 0 <= k < rest.len() implies s.subrange(
        i + head.len(),
        i + head.len() + rest.len(),
    )[k] == rest[k] by {
        assert((head + rest)[head.len() + k] == rest[k]);
        assert(s.subrange(i, i + head.len() + rest.len())[head.len() + k] == s[i + head.len() + k]);
        assert(s.subrange(i + head.len(), i + head.len() + rest.len())[k] == s[i + head.len() + k]);
    }
    assert(s.subrange(i + head.len(), i + head.len() + rest.len()) =~= rest);
}

/// Like [`lemma_first_lt`], anchored anywhere in `s`.
proof fn lemma_first_lt_at(s: Seq<char>, i: int, j: int, content: Seq<char>, rest: Seq<char>)
    requires
        contains_at(s, content + rest, i),
        no_lt(content),
        rest.len() > 0,
        rest[0] == '<',
        i <= j <= s.len(),
        forall|k: int| i <= k < j ==> s[k] != '<',
        j < s.len() ==> s[j] == '<',
    ensures
        j == i + content.len(),
        s.subrange(i, j) == content,
        contains_at(s, rest, j),
{
    lemma_parts_at(s, i, content, rest);
    assert(s[i + content.len()] == s.subrange(
        i + content.len(),
        i + content.len() + rest.len(),
    )[0]);
    assert(s[i + content.len()] == '<');
    if j < i + content.len() {
        assert(s[j] == s.subrange(i, i + content.len())[j - i]);
        assert(s[j] != '<');
        assert(false);
    }
    if j > i + content.len() {
        assert(s[i + content.len()] != '<');
        assert(false);
    }
    assert(s.subrange(i, j) =~= content);
}

/// A descriptor value carrying only the fields that follow the
/// argument array in a descriptor file; what the file holds from the
/// `StandardOutPath` key on depends on nothing else.
pub open spec fn partial_view(
    outp: Seq<char>,
    errp: Seq<char>,
    ka: bool,
    ral: bool,
    pt: ProcessType,
) -> AgentView {
    AgentView {
        label: Seq::<char>::empty(),
        program_arguments: Seq::<Seq<char>>::empty(),
        standard_out_path: outp,
        standard_error_path: errp,
        keep_alive: ka,
        run_at_load: ral,
        process_type: pt,
    }
}

/// A suffix that carries the `KeepAlive` key and everything after it
/// back to back, to the end of the text, is the canonical tail for
/// those flag and class values.
#[verifier::rlimit(60)]
proof fn lemma_assemble_flags(
    s: Seq<char>,
    pv: AgentView,
    ik: int,
    i7: int,
    i8: int,
    i9: int,
    i10: int,
    i11: int,
    i12: int,
)
    requires
        0 <= ik <= i7 <= i8 <= i9 <= i10 <= i11 <= i12 <= s.len(),
        s.subrange(ik, i7) == "</string>\n\t<key>KeepAlive</key>\n"@,
        s.subrange(i7, i8) == bool_view(pv.keep_alive),
        s.subrange(i8, i9) == "\t<key>RunAtLoad</key>\n"@,
        s.subrange(i9, i10) == bool_view(pv.run_at_load),
        s.subrange(i10, i11) == "\t<key>ProcessType</key>\n\t<string>"@,
        s.subrange(i11, i12) == token_view(pv.process_type),
        s.subrange(i12, s.len() as int) == "</string>\n</dict>\n</plist>"@,
    ensures
        s.subrange(ik, s.len() as int) == tail_ka(pv),
{
    let kk = "</string>\n\t<key>KeepAlive</key>\n"@;
    let kr = "\t<key>RunAtLoad</key>\n"@;
    let kp = "\t<key>ProcessType</key>\n\t<string>"@;
    let ft = "</string>\n</dict>\n</plist>"@;
    let bk = bool_view(pv.keep_alive);
    let br = bool_view(pv.run_at_load);
    let tk = token_view(pv.process_type);
    let n = s.len() as int;
    lemma_sub_join(s, ik, i7, i8, kk, bk);
    let p1 = kk + bk;
    lemma_sub_join(s, ik, i8, i9, p1, kr);
    let p2 = p1 + kr;
    lemma_sub_join(s, ik, i9, i10, p2, br);
    let p3 = p2 + br;
    lemma_sub_join(s, ik, i10, i11, p3, kp);
    let p4 = p3 + kp;
    lemma_sub_join(s, ik, i11, i12, p4, tk);
    let p5 = p4 + tk;
    lemma_sub_join(s, ik, i12, n, p5, ft);
    assert(s.subrange(ik, n) == p5 + ft);
    seq_assoc(p4, tk, ft);
    seq_assoc(p3, kp, tk + ft);
    assert(s.subrange(ik, n) == p3 + tail_pt(pv));
    seq_assoc(p2, br, tail_pt(pv));
    seq_assoc(p1, kr, br + tail_pt(pv));
    assert(s.subrange(ik, n) == p1 + tail_ral(pv));
    seq_assoc(kk, bk, tail_ral(pv));
    assert(s.subrange(ik, n) == tail_ka(pv));
}

/// A suffix that carries the two redirection paths and then the
/// canonical flags tail is the canonical tail after the argument
/// array.
proof fn lemma_assemble_tail(
    s: Seq<char>,
    pv: AgentView,
    it: int,
    i5: int,
    j5: int,
    i6: int,
    j6: int,
)
    requires
        0 <= it <= i5 <= j5 <= i6 <= j6 <= s.len(),
        s.subrange(it, i5) == "\t<key>StandardOutPath</key>\n\t<string>"@,
        s.subrange(i5, j5) == esc(pv.standard_out_path),
        s.subrange(j5, i6) == "</string>\n\t<key>StandardErrorPath</key>\n\t<string>"@,
        s.subrange(i6, j6) == esc(pv.standard_error_path),
        s.subrange(j6, s.len() as int) == tail_ka(pv),
    ensures
        s.subrange(it, s.len() as int) == tail_out(pv),
{
    let ko = "\t<key>StandardOutPath</key>\n\t<string>"@;
    let ke = "</string>\n\t<key>StandardErrorPath</key>\n\t<string>"@;
    let n = s.len() as int;
    lemma_sub_join(s, it, i5, j5, ko, esc(pv.standard_out_path));
    let p1 = ko + esc(pv.standard_out_path);
    lemma_sub_join(s, it, j5, i6, p1, ke);
    let p2 = p1 + ke;
    lemma_sub_join(s, it, i6, j6, p2, esc(pv.standard_error_path));
    let p3 = p2 + esc(pv.standard_error_path);
    lemma_sub_join(s, it, j6, n, p3, tail_ka(pv));
    assert(s.subrange(it, n) == p3 + tail_ka(pv));
    seq_assoc(p2, esc(pv.standard_error_path), tail_ka(pv));
    seq_assoc(p1, ke, esc(pv.standard_error_path) + tail_ka(pv));
    assert(s.subrange(it, n) == p1 + tail_err(pv));
    seq_assoc(ko, esc(pv.standard_out_path), tail_err(pv));
    assert(s.subrange(it, n) == tail_out(pv));
}

/// A text that opens with the prologue, label, argument array and then
/// the canonical tail is the canonical file of that value.
proof fn lemma_assemble(s: Seq<char>, av: AgentView, i1: int, j1: int, i2: int, iarr: int)
    requires
        0 <= i1 <= j1 <= i2 <= iarr <= s.len(),
        s.subrange(0, i1)
            == "<?xml version=\"1.0\" encoding=\"UTF-8\"?>\n<!DOCTYPE plist PUBLIC \"-//Apple//DTD PLIST 1.0//EN\" \"http://www.apple.com/DTDs/PropertyList-1.0.dtd\">\n<plist version=\"1.0\">\n<dict>\n\t<key>Label</key>\n\t<string>"@,
        s.subrange(i1, j1) == esc(av.label),
        s.subrange(j1, i2) == "</string>\n\t<key>ProgramArguments</key>\n"@,
        s.subrange(i2, iarr) == args_block(av.program_arguments),
        s.subrange(iarr, s.len() as int) == tail_out(av),
    ensures
        s == plist_view(av),
{
    let hd =
        "<?xml version=\"1.0\" encoding=\"UTF-8\"?>\n<!DOCTYPE plist PUBLIC \"-//Apple//DTD PLIST 1.0//EN\" \"http://www.apple.com/DTDs/PropertyList-1.0.dtd\">\n<plist version=\"1.0\">\n<dict>\n\t<key>Label</key>\n\t<string>"@;
    let ka = "</string>\n\t<key>ProgramArguments</key>\n"@;
    let ab = args_block(av.program_arguments);
    let n = s.len() as int;
    lemma_sub_join(s, 0, i1, j1, hd, esc(av.label));
    let p0 = hd + esc(av.label);
    lemma_sub_join(s, 0, j1, i2, p0, ka);
    let p1 = p0 + ka;
    lemma_sub_join(s, 0, i2, iarr, p1, ab);
    let p2 = p1 + ab;
    lemma_sub_join(s, 0, iarr, n, p2, tail_out(av));
    assert(s.subrange(0, n) =~= s);
    assert(s == p2 + tail_out(av));
    seq_assoc(p1, ab, tail_out(av));
    seq_assoc(p0, ka, ab + tail_out(av));
    assert(s == p0 + tail_arr(av));
    seq_assoc(hd, esc(av.label), tail_arr(av));
    assert(s == plist_view(av));
}

/// The key line that follows the label opens with `<`.
proof fn lemma_lit_ka_first()
    ensures
        "</string>\n\t<key>ProgramArguments</key>\n"@.len() > 0,
        "</string>\n\t<key>ProgramArguments</key>\n"@[0] == '<',
{
    reveal_strlit("</string>\n\t<key>ProgramArguments</key>\n");
}

/// The key line that follows the standard output path opens with `<`.
proof fn lemma_lit_ke_first()
    ensures
        "</string>\n\t<key>StandardErrorPath</key>\n\t<string>"@.len() > 0,
        "</string>\n\t<key>StandardErrorPath</key>\n\t<string>"@[0] == '<',
{
    reveal_strlit("</string>\n\t<key>StandardErrorPath</key>\n\t<string>");
}

/// The key line that follows the standard error path opens with `<`.
proof fn lemma_lit_kk_first()
    ensures
        "</string>\n\t<key>KeepAlive</key>\n"@.len() > 0,
        "</string>\n\t<key>KeepAlive</key>\n"@[0] == '<',
{
    reveal_strlit("</string>\n\t<key>KeepAlive</key>\n");
}

/// Decode one boolean element. Tells the two renderings apart and
/// refuses anything else.
fn parse_bool(s: &str, n: usize, i: usize) -> (r: Option<(bool, usize)>)
    requires
        n == s@.len(),
        i <= n,
    ensures
        r matches Some(p) ==> p.1 == i + bool_view(p.0).len() && i <= p.1 <= n && s@.subrange(
            i as int,
            p.1 as int,
        ) == bool_view(p.0) && !contains_at(s@, bool_view(!p.0), i as int),
        r is None ==> !contains_at(s@, bool_view(true), i as int) && !contains_at(
            s@,
            bool_view(false),
            i as int,
        ),
{
    proof {
        reveal_strlit("\t<true/>\n");
        reveal_strlit("\t<false/>\n");
    }
    if let Some(j) = expect(s, n, i, "\t<true/>\n") {
        proof {
            if contains_at(s@, bool_view(false), i as int) {
                assert(s@.subrange(i as int, i + 10)[2] == s@[i + 2]);
                assert(s@.subrange(i as int, i + 9)[2] == s@[i + 2]);
                assert(false);
            }
        }
        Some((true, j))
    } else if let Some(j) = expect(s, n, i, "\t<false/>\n") {
        Some((false, j))
    } else {
        None
    }
}

/// Decode one scheduling-class token. Tells the four tokens apart and
/// refuses any other text.
fn parse_token(s: &str, n: usize, i: usize) -> (r: Option<(ProcessType, usize)>)
    requires
        n == s@.len(),
        i <= n,
    ensures
        r matches Some(p) ==> p.1 == i + token_view(p.0).len() && i <= p.1 <= n && s@.subrange(
            i as int,
            p.1 as int,
        ) == token_view(p.0) && (forall|t: ProcessType|
            t != p.0 ==> !contains_at(s@, token_view(t), i as int)),
        r is None ==> forall|t: ProcessType| !contains_at(s@, token_view(t), i as int),
{
    proof {
        reveal_strlit("background");
        reveal_strlit("standard");
        reveal_strlit("adaptive");
        reveal_strlit("interactive");
    }
    if let Some(j) = expect(s, n, i, "background") {
        proof {
            assert forall|t: ProcessType| t != ProcessType::Background implies !contains_at(
                s@,
                token_view(t),
                i as int,
            ) by {
                if contains_at(s@, token_view(t), i as int) {
                    assert(s@.subrange(i as int, i + token_view(t).len())[0] == s@[i as int]);
                    assert(s@.subrange(i as int, i + 10)[0] == s@[i as int]);
                    assert(false);
                }
            }
        }
        Some((ProcessType::Background, j))
    } else if let Some(j) = expect(s, n, i, "standard") {
        proof {
            assert forall|t: ProcessType| t != ProcessType::Standard implies !contains_at(
                s@,
                token_view(t),
                i as int,
            ) by {
                if contains_at(s@, token_view(t), i as int) {
                    assert(s@.subrange(i as int, i + token_view(t).len())[0] == s@[i as int]);
                    assert(s@.subrange(i as int, i + 8)[0] == s@[i as int]);
                    assert(false);
                }
            }
        }
        Some((ProcessType::Standard, j))
    } else if let Some(j) = expect(s, n, i, "adaptive") {
        proof {
            assert forall|t: ProcessType| t != ProcessType::Adaptive implies !contains_at(
                s@,
                token_view(t),
                i as int,
            ) by {
                if contains_at(s@, token_view(t), i as int) {
                    assert(s@.subrange(i as int, i + token_view(t).len())[0] == s@[i as int]);
                    assert(s@.subrange(i as int, i + 8)[0] == s@[i as int]);
                    assert(false);
                }
            }
        }
        Some((ProcessType::Adaptive, j))
    } else if let Some(j) = expect(s, n, i, "interactive") {
        proof {
            assert forall|t: ProcessType| t != ProcessType::Interactive implies !contains_at(
                s@,
                token_view(t),
                i as int,
            ) by {
                if contains_at(s@, token_view(t), i as int) {
                    assert(false);
                }
            }
        }
        Some((ProcessType::Interactive, j))
    } else {
        None
    }
}

/// Decode the whole `ProgramArguments` array block. Accepts exactly the
/// two canonical forms and returns the arguments in order.
#[verifier::rlimit(100)]
#[verifier::loop_isolation(false)]
fn parse_args(s: &str, n: usize, ib: usize) -> (r: Option<(Vec<String>, usize)>)
    requires
        n == s@.len(),
        ib <= n,
    ensures
        r matches Some(p) ==> ib <= p.1 <= n && p.1 == ib + args_block(p.0.deep_view()).len()
            && s@.subrange(ib as int, p.1 as int) == args_block(p.0.deep_view()),
        r matches Some(p) ==> forall|pa: Seq<Seq<char>>|
            #[trigger] contains_at(s@, args_block(pa), ib as int) ==> pa == p.0.deep_view(),
        r is None ==> forall|pa: Seq<Seq<char>>|
            !#[trigger] contains_at(s@, args_block(pa), ib as int),
{
    let lit_ae = "\t<array/>\n";
    let lit_ao = "\t<array>\n";
    let lit_item = "\t\t<string>";
    let lit_cl = "</string>\n";
    let lit_ac = "\t</array>\n";
    proof {
        reveal_strlit("\t<array/>\n");
        reveal_strlit("\t<array>\n");
        reveal_strlit("\t\t<string>");
        reveal_strlit("</string>\n");
        reveal_strlit("\t</array>\n");
    }
    if let Some(j) = expect(s, n, ib, lit_ae) {
        let args: Vec<String> = Vec::new();
        proof {
            assert(args.deep_view() =~= Seq::<Seq<char>>::empty());
            assert forall|pa: Seq<Seq<char>>|
                #[trigger] contains_at(s@, args_block(pa), ib as int) implies pa
                == args.deep_view() by {
                if pa.len() > 0 {
                    lemma_parts_at(s@, ib as int, lit_ao@, args_entries(pa) + lit_ac@);
                    assert(s@.subrange(ib as int, ib + 9)[7] == s@[ib + 7]);
                    assert(s@.subrange(ib as int, ib + 10)[7] == s@[ib + 7]);
                    assert(false);
                }
                assert(pa =~= args.deep_view());
            }
        }
        Some((args, j))
    } else if let Some(i0) = expect(s, n, ib, lit_ao) {
        let mut args: Vec<String> = Vec::new();
        let mut i: usize = i0;
        let mut done = false;
        proof {
            assert(args.deep_view() =~= Seq::<Seq<char>>::empty());
            assert(s@.subrange(i0 as int, i as int) =~= args_entries(args.deep_view()));
            assert forall|pa: Seq<Seq<char>>|
                #[trigger] contains_at(s@, args_block(pa), ib as int) implies (
            pa.len() >= args.deep_view().len() && pa.take(args.deep_view().len() as int)
                == args.deep_view() && contains_at(
                s@,
                args_entries(pa.skip(args.deep_view().len() as int)) + lit_ac@,
                i as int,
            )) by {
                if pa.len() == 0 {
                    assert(s@.subrange(ib as int, ib + 10)[7] == s@[ib + 7]);
                    assert(s@.subrange(ib as int, ib + 9)[7] == s@[ib + 7]);
                    assert(false);
                }
                lemma_parts_at(s@, ib as int, lit_ao@, args_entries(pa) + lit_ac@);
                assert(pa.take(0) =~= args.deep_view());
                assert(pa.skip(0) =~= pa);
            }
        }
        while !done
            invariant
                i0 <= i <= n,
                s@.subrange(i0 as int, i as int) == args_entries(args.deep_view()),
                forall|pa: Seq<Seq<char>>|
                    #[trigger] contains_at(s@, args_block(pa), ib as int) ==> (
                    pa.len() >= args.deep_view().len() && pa.take(args.deep_view().len() as int)
                        == args.deep_view() && contains_at(
                        s@,
                        args_entries(pa.skip(args.deep_view().len() as int)) + lit_ac@,
                        i as int,
                    )),
                done ==> !contains_at(s@, lit_item@, i as int),
            decreases n - i, (if done {
                0int
            } else {
                1int
            }),
        {
            if let Some(ia) = expect(s, n, i, lit_item) {
                let jj = find_lt(s, n, ia);
                proof {
                    let c = args.deep_view().len() as int;
                    assert forall|pa: Seq<Seq<char>>|
                        #[trigger] contains_at(s@, args_block(pa), ib as int)
                        implies (pa.len() > c && jj == ia + esc(pa[c]).len() && esc(pa[c])
                        == s@.subrange(ia as int, jj as int) && contains_at(
                        s@,
                        lit_cl@ + (args_entries(pa.skip(c + 1)) + lit_ac@),
                        jj as int,
                    )) by {
                        let rest = pa.skip(c);
                        if rest.len() == 0 {
                            assert(args_entries(rest) == Seq::<char>::empty());
                            assert(Seq::<char>::empty() + lit_ac@ =~= lit_ac@);
                            assert(contains_at(s@, lit_ac@, i as int));
                            assert(s@.subrange(i as int, i + 10)[1] == s@[i + 1]);
                            assert(lit_ac@[1] != lit_item@[1]);
                            assert(false);
                        }
                        let first = rest.first();
                        let ef = esc(first);
                        let e2 = args_entries(rest.drop_first());
                        assert(args_entries(rest) == lit_item@ + (ef + (lit_cl@ + e2)));
                        seq_assoc(lit_item@, ef + (lit_cl@ + e2), lit_ac@);
                        lemma_parts_at(
                            s@,
                            i as int,
                            lit_item@,
                            (ef + (lit_cl@ + e2)) + lit_ac@,
                        );
                        seq_assoc(ef, lit_cl@ + e2, lit_ac@);
                        seq_assoc(lit_cl@, e2, lit_ac@);
                        assert(contains_at(s@, ef + (lit_cl@ + (e2 + lit_ac@)), ia as int));
                        assert(first == pa[c]);
                        lemma_esc_no_lt(first);
                        lemma_first_lt_at(
                            s@,
                            ia as int,
                            jj as int,
                            ef,
                            lit_cl@ + (e2 + lit_ac@),
                        );
                        assert(rest.drop_first() =~= pa.skip(c + 1));
                    }
                }
                let arg = match unescape(s, n, ia, jj) {
                    Some(t) => t,
                    None => {
                        proof {
                            assert forall|pa: Seq<Seq<char>>| !contains_at(
                                s@,
                                args_block(pa),
                                ib as int,
                            ) by {
                                if contains_at(s@, args_block(pa), ib as int) {
                                    let c = args.deep_view().len() as int;
                                    assert(esc(pa[c]) == s@.subrange(ia as int, jj as int));
                                    assert(false);
                                }
                            }
                        }
                        return None;
                    },
                };
                if let Some(ic) = expect(s, n, jj, lit_cl) {
                    proof {
                        let olddv = args.deep_view();
                        lemma_sub_join(
                            s@,
                            i0 as int,
                            i as int,
                            ia as int,
                            args_entries(olddv),
                            lit_item@,
                        );
                        lemma_sub_join(
                            s@,
                            i0 as int,
                            ia as int,
                            jj as int,
                            args_entries(olddv) + lit_item@,
                            esc(arg@),
                        );
                        lemma_sub_join(
                            s@,
                            i0 as int,
                            jj as int,
                            ic as int,
                            args_entries(olddv) + lit_item@ + esc(arg@),
                            lit_cl@,
                        );
                        lemma_args_entries_push(olddv, arg@);
                    }
                    let ghost olddv = args.deep_view();
                    let ghost argv = arg@;
                    args.push(arg);
                    proof {
                        assert(args.deep_view() =~= olddv.push(argv));
                        let c = olddv.len() as int;
                        assert forall|pa: Seq<Seq<char>>|
                            #[trigger] contains_at(s@, args_block(pa), ib as int)
                            implies (pa.len() >= args.deep_view().len() && pa.take(
                            args.deep_view().len() as int,
                        ) == args.deep_view() && contains_at(
                            s@,
                            args_entries(pa.skip(args.deep_view().len() as int)) + lit_ac@,
                            ic as int,
                        )) by {
                            let e2 = args_entries(pa.skip(c + 1));
                            lemma_parts_at(s@, jj as int, lit_cl@, e2 + lit_ac@);
                            assert(esc(pa[c]) == s@.subrange(ia as int, jj as int));
                            assert(pa[c] == argv);
                            assert(pa.take(c + 1) =~= pa.take(c).push(pa[c]));
                        }
                    }
                    i = ic;
                } else {
                    proof {
                        assert forall|pa: Seq<Seq<char>>| !contains_at(
                            s@,
                            args_block(pa),
                            ib as int,
                        ) by {
                            if contains_at(s@, args_block(pa), ib as int) {
                                lemma_parts_at(
                                    s@,
                                    jj as int,
                                    lit_cl@,
                                    args_entries(pa.skip(args.deep_view().len() as int + 1)) + lit_ac@,
                                );
                                assert(contains_at(s@, lit_cl@, jj as int));
                                assert(false);
                            }
                        }
                    }
                    return None;
                }
            } else {
                done = true;
            }
        }
        proof {
            assert forall|pa: Seq<Seq<char>>|
                #[trigger] contains_at(s@, args_block(pa), ib as int) implies (pa
                == args.deep_view() && contains_at(s@, lit_ac@, i as int)) by {
                let c = args.deep_view().len() as int;
                let rest = pa.skip(c);
                if rest.len() > 0 {
                    let ef = esc(rest.first());
                    let e2 = args_entries(rest.drop_first());
                    assert(args_entries(rest) == lit_item@ + (ef + (lit_cl@ + e2)));
                    seq_assoc(lit_item@, ef + (lit_cl@ + e2), lit_ac@);
                    lemma_parts_at(s@, i as int, lit_item@, (ef + (lit_cl@ + e2)) + lit_ac@);
                    assert(contains_at(s@, lit_item@, i as int));
                    assert(false);
                }
                assert(args_entries(rest) == Seq::<char>::empty());
                assert(Seq::<char>::empty() + lit_ac@ =~= lit_ac@);
                assert(pa =~= args.deep_view());
            }
        }
        if args.len() == 0 {
            proof {
                assert forall|pa: Seq<Seq<char>>| !contains_at(
                    s@,
                    args_block(pa),
                    ib as int,
                ) by {
                    if contains_at(s@, args_block(pa), ib as int) {
                        assert(pa == args.deep_view());
                        assert(pa.len() == 0);
                        assert(s@.subrange(ib as int, ib + 10)[7] == s@[ib + 7]);
                        assert(s@.subrange(ib as int, ib + 9)[7] == s@[ib + 7]);
                        assert(false);
                    }
                }
            }
            return None;
        }
        if let Some(j) = expect(s, n, i, lit_ac) {
            proof {
                let dv = args.deep_view();
                lemma_sub_join(s@, ib as int, i0 as int, i as int, lit_ao@, args_entries(dv));
                lemma_sub_join(
                    s@,
                    ib as int,
                    i as int,
                    j as int,
                    lit_ao@ + args_entries(dv),
                    lit_ac@,
                );
                seq_assoc(lit_ao@, args_entries(dv), lit_ac@);
                assert(dv.len() > 0);
                assert(s@.subrange(ib as int, j as int) == args_block(dv));
            }
            Some((args, j))
        } else {
            proof {
                assert forall|pa: Seq<Seq<char>>| !contains_at(
                    s@,
                    args_block(pa),
                    ib as int,
                ) by {
                    if contains_at(s@, args_block(pa), ib as int) {
                        assert(contains_at(s@, lit_ac@, i as int));
                        assert(false);
                    }
                }
            }
            None
        }
    } else {
        proof {
            assert forall|pa: Seq<Seq<char>>| !contains_at(
                s@,
                args_block(pa),
                ib as int,
            ) by {
                if contains_at(s@, args_block(pa), ib as int) {
                    if pa.len() == 0 {
                        assert(contains_at(s@, lit_ae@, ib as int));
                    } else {
                        lemma_parts_at(s@, ib as int, lit_ao@, args_entries(pa) + lit_ac@);
                        assert(contains_at(s@, lit_ao@, ib as int));
                    }
                    assert(false);
                }
            }
        }
        None
    }
}


/// Decode the `ProcessType` key, its token and the closing tags, which
/// must end the text.
#[verifier::rlimit(100)]
fn parse_pt(s: &str, n: usize, ip: usize) -> (r: Option<ProcessType>)
    requires
        n == s@.len(),
        ip <= n,
    ensures
        r matches Some(t) ==> s@.subrange(ip as int, n as int) == tail_pt(
            partial_view(Seq::<char>::empty(), Seq::<char>::empty(), false, false, t),
        ),
        r matches Some(t) ==> forall|v: AgentView|
            s@.subrange(ip as int, n as int) == #[trigger] tail_pt(v) ==> v.process_type == t,
        r is None ==> forall|v: AgentView|
            s@.subrange(ip as int, n as int) != #[trigger] tail_pt(v),
{
    let lit_kp = "\t<key>ProcessType</key>\n\t<string>";
    let lit_ft = "</string>\n</dict>\n</plist>";
    let i11 = match expect(s, n, ip, lit_kp) {
        Some(j) => j,
        None => {
            proof {
                assert forall|v: AgentView| s@.subrange(ip as int, n as int) != tail_pt(v) by {
                    if s@.subrange(ip as int, n as int) == tail_pt(v) {
                        lemma_parts(s@, ip as int, lit_kp@, token_view(v.process_type) + lit_ft@);
                        assert(contains_at(s@, lit_kp@, ip as int));
                        assert(false);
                    }
                }
            }
            return None;
        },
    };
    let (process_type, i12) = match parse_token(s, n, i11) {
        Some(p) => p,
        None => {
            proof {
                assert forall|v: AgentView| s@.subrange(ip as int, n as int) != tail_pt(v) by {
                    if s@.subrange(ip as int, n as int) == tail_pt(v) {
                        lemma_parts(s@, ip as int, lit_kp@, token_view(v.process_type) + lit_ft@);
                        lemma_parts(s@, i11 as int, token_view(v.process_type), lit_ft@);
                        assert(contains_at(s@, token_view(v.process_type), i11 as int));
                        assert(false);
                    }
                }
            }
            return None;
        },
    };
    let i13 = match expect(s, n, i12, lit_ft) {
        Some(j) => j,
        None => {
            proof {
                assert forall|v: AgentView| s@.subrange(ip as int, n as int) != tail_pt(v) by {
                    if s@.subrange(ip as int, n as int) == tail_pt(v) {
                        lemma_parts(s@, ip as int, lit_kp@, token_view(v.process_type) + lit_ft@);
                        lemma_parts(s@, i11 as int, token_view(v.process_type), lit_ft@);
                        assert(contains_at(s@, token_view(v.process_type), i11 as int));
                        assert(contains_at(s@, lit_ft@, i12 as int));
                        assert(false);
                    }
                }
            }
            return None;
        },
    };
    if i13 != n {
        proof {
            assert forall|v: AgentView| s@.subrange(ip as int, n as int) != tail_pt(v) by {
                if s@.subrange(ip as int, n as int) == tail_pt(v) {
                    lemma_parts(s@, ip as int, lit_kp@, token_view(v.process_type) + lit_ft@);
                    lemma_parts(s@, i11 as int, token_view(v.process_type), lit_ft@);
                    assert(contains_at(s@, token_view(v.process_type), i11 as int));
                    assert(i12 + lit_ft@.len() == n);
                    assert(false);
                }
            }
        }
        return None;
    }
    proof {
        let pv = partial_view(
            Seq::<char>::empty(),
            Seq::<char>::empty(),
            false,
            false,
            process_type,
        );
        lemma_sub_join(s@, ip as int, i11 as int, i12 as int, lit_kp@, token_view(process_type));
        lemma_sub_join(
            s@,
            ip as int,
            i12 as int,
            n as int,
            lit_kp@ + token_view(process_type),
            lit_ft@,
        );
        seq_assoc(lit_kp@, token_view(process_type), lit_ft@);
        assert(s@.subrange(ip as int, n as int) == tail_pt(pv));
        assert forall|v: AgentView|
            s@.subrange(ip as int, n as int) == tail_pt(v) implies v.process_type
            == process_type by {
            lemma_parts(s@, ip as int, lit_kp@, token_view(v.process_type) + lit_ft@);
            lemma_parts(s@, i11 as int, token_view(v.process_type), lit_ft@);
            assert(contains_at(s@, token_view(v.process_type), i11 as int));
        }
    }
    Some(process_type)
}

/// Decode the `RunAtLoad` key, its value, and everything after them.
#[verifier::rlimit(100)]
fn parse_ral(s: &str, n: usize, ir: usize) -> (r: Option<(bool, ProcessType)>)
    requires
        n == s@.len(),
        ir <= n,
    ensures
        r matches Some(t) ==> s@.subrange(ir as int, n as int) == tail_ral(
            partial_view(Seq::<char>::empty(), Seq::<char>::empty(), false, t.0, t.1),
        ),
        r matches Some(t) ==> forall|v: AgentView|
            s@.subrange(ir as int, n as int) == #[trigger] tail_ral(v) ==> (v.run_at_load == t.0
                && v.process_type == t.1),
        r is None ==> forall|v: AgentView|
            s@.subrange(ir as int, n as int) != #[trigger] tail_ral(v),
{
    let lit_kr = "\t<key>RunAtLoad</key>\n";
    let i9 = match expect(s, n, ir, lit_kr) {
        Some(j) => j,
        None => {
            proof {
                assert forall|v: AgentView| s@.subrange(ir as int, n as int) != tail_ral(v) by {
                    if s@.subrange(ir as int, n as int) == tail_ral(v) {
                        lemma_parts(s@, ir as int, lit_kr@, bool_view(v.run_at_load) + tail_pt(v));
                        assert(contains_at(s@, lit_kr@, ir as int));
                        assert(false);
                    }
                }
            }
            return None;
        },
    };
    let (run_at_load, i10) = match parse_bool(s, n, i9) {
        Some(p) => p,
        None => {
            proof {
                assert forall|v: AgentView| s@.subrange(ir as int, n as int) != tail_ral(v) by {
                    if s@.subrange(ir as int, n as int) == tail_ral(v) {
                        lemma_parts(s@, ir as int, lit_kr@, bool_view(v.run_at_load) + tail_pt(v));
                        lemma_parts(s@, i9 as int, bool_view(v.run_at_load), tail_pt(v));
                        assert(contains_at(s@, bool_view(v.run_at_load), i9 as int));
                        assert(false);
                    }
                }
            }
            return None;
        },
    };
    proof {
        assert forall|v: AgentView|
            s@.subrange(ir as int, n as int) == tail_ral(v) implies (v.run_at_load == run_at_load
            && s@.subrange(i10 as int, n as int) == tail_pt(v)) by {
            lemma_parts(s@, ir as int, lit_kr@, bool_view(v.run_at_load) + tail_pt(v));
            lemma_parts(s@, i9 as int, bool_view(v.run_at_load), tail_pt(v));
            assert(contains_at(s@, bool_view(v.run_at_load), i9 as int));
        }
    }
    let process_type = match parse_pt(s, n, i10) {
        Some(t) => t,
        None => {
            proof {
                assert forall|v: AgentView| s@.subrange(ir as int, n as int) != tail_ral(v) by {
                    if s@.subrange(ir as int, n as int) == tail_ral(v) {
                        assert(s@.subrange(i10 as int, n as int) == tail_pt(v));
                        assert(false);
                    }
                }
            }
            return None;
        },
    };
    proof {
        let pv = partial_view(
            Seq::<char>::empty(),
            Seq::<char>::empty(),
            false,
            run_at_load,
            process_type,
        );
        assert(tail_pt(
            partial_view(Seq::<char>::empty(), Seq::<char>::empty(), false, false, process_type),
        ) == tail_pt(pv));
        lemma_sub_join(s@, ir as int, i9 as int, i10 as int, lit_kr@, bool_view(run_at_load));
        lemma_sub_join(
            s@,
            ir as int,
            i10 as int,
            n as int,
            lit_kr@ + bool_view(run_at_load),
            tail_pt(pv),
        );
        seq_assoc(lit_kr@, bool_view(run_at_load), tail_pt(pv));
        assert(s@.subrange(ir as int, n as int) == tail_ral(pv));
        assert forall|v: AgentView|
            s@.subrange(ir as int, n as int) == tail_ral(v) implies (v.run_at_load == run_at_load
            && v.process_type == process_type) by {
            assert(s@.subrange(i10 as int, n as int) == tail_pt(v));
        }
    }
    Some((run_at_load, process_type))
}

/// Decode the `KeepAlive` key, its value, and everything after them.
#[verifier::rlimit(100)]
fn parse_flags(s: &str, n: usize, ik: usize) -> (r: Option<(bool, bool, ProcessType)>)
    requires
        n == s@.len(),
        ik <= n,
    ensures
        r matches Some(t) ==> s@.subrange(ik as int, n as int) == tail_ka(
            partial_view(Seq::<char>::empty(), Seq::<char>::empty(), t.0, t.1, t.2),
        ),
        r matches Some(t) ==> forall|v: AgentView|
            s@.subrange(ik as int, n as int) == #[trigger] tail_ka(v) ==> (v.keep_alive == t.0
                && v.run_at_load == t.1 && v.process_type == t.2),
        r is None ==> forall|v: AgentView|
            s@.subrange(ik as int, n as int) != #[trigger] tail_ka(v),
{
    let lit_kk = "</string>\n\t<key>KeepAlive</key>\n";
    let i7 = match expect(s, n, ik, lit_kk) {
        Some(j) => j,
        None => {
            proof {
                assert forall|v: AgentView| s@.subrange(ik as int, n as int) != tail_ka(v) by {
                    if s@.subrange(ik as int, n as int) == tail_ka(v) {
                        lemma_parts(s@, ik as int, lit_kk@, bool_view(v.keep_alive) + tail_ral(v));
                        assert(contains_at(s@, lit_kk@, ik as int));
                        assert(false);
                    }
                }
            }
            return None;
        },
    };
    let (keep_alive, i8) = match parse_bool(s, n, i7) {
        Some(p) => p,
        None => {
            proof {
                assert forall|v: AgentView| s@.subrange(ik as int, n as int) != tail_ka(v) by {
                    if s@.subrange(ik as int, n as int) == tail_ka(v) {
                        lemma_parts(s@, ik as int, lit_kk@, bool_view(v.keep_alive) + tail_ral(v));
                        lemma_parts(s@, i7 as int, bool_view(v.keep_alive), tail_ral(v));
                        assert(contains_at(s@, bool_view(v.keep_alive), i7 as int));
                        assert(false);
                    }
                }
            }
            return None;
        },
    };
    proof {
        assert forall|v: AgentView|
            s@.subrange(ik as int, n as int) == tail_ka(v) implies (v.keep_alive == keep_alive
            && s@.subrange(i8 as int, n as int) == tail_ral(v)) by {
            lemma_parts(s@, ik as int, lit_kk@, bool_view(v.keep_alive) + tail_ral(v));
            lemma_parts(s@, i7 as int, bool_view(v.keep_alive), tail_ral(v));
            assert(contains_at(s@, bool_view(v.keep_alive), i7 as int));
        }
    }
    let (run_at_load, process_type) = match parse_ral(s, n, i8) {
        Some(t) => t,
        None => {
            proof {
                assert forall|v: AgentView| s@.subrange(ik as int, n as int) != tail_ka(v) by {
                    if s@.subrange(ik as int, n as int) == tail_ka(v) {
                        assert(s@.subrange(i8 as int, n as int) == tail_ral(v));
                        assert(false);
                    }
                }
            }
            return None;
        },
    };
    proof {
        let pv = partial_view(
            Seq::<char>::empty(),
            Seq::<char>::empty(),
            keep_alive,
            run_at_load,
            process_type,
        );
        assert(tail_ral(
            partial_view(
                Seq::<char>::empty(),
                Seq::<char>::empty(),
                false,
                run_at_load,
                process_type,
            ),
        ) == tail_ral(pv));
        lemma_sub_join(s@, ik as int, i7 as int, i8 as int, lit_kk@, bool_view(keep_alive));
        lemma_sub_join(
            s@,
            ik as int,
            i8 as int,
            n as int,
            lit_kk@ + bool_view(keep_alive),
            tail_ral(pv),
        );
        seq_assoc(lit_kk@, bool_view(keep_alive), tail_ral(pv));
        assert(s@.subrange(ik as int, n as int) == tail_ka(pv));
        assert forall|v: AgentView|
            s@.subrange(ik as int, n as int) == tail_ka(v) implies (v.keep_alive == keep_alive
            && v.run_at_load == run_at_load && v.process_type == process_type) by {
            assert(s@.subrange(i8 as int, n as int) == tail_ral(v));
        }
    }
    Some((keep_alive, run_at_load, process_type))
}

/// Decode everything that follows the argument array: the two
/// redirection paths, then the flags, class and closing tags.
#[verifier::rlimit(100)]
fn parse_tail(s: &str, n: usize, it: usize) -> (r: Option<(String, String, bool, bool, ProcessType)>)
    requires
        n == s@.len(),
        it <= n,
    ensures
        r matches Some(t) ==> s@.subrange(it as int, n as int) == tail_out(
            partial_view(t.0@, t.1@, t.2, t.3, t.4),
        ),
        r matches Some(t) ==> forall|v: AgentView|
            s@.subrange(it as int, n as int) == #[trigger] tail_out(v) ==> (v.standard_out_path
                == t.0@ && v.standard_error_path == t.1@ && v.keep_alive == t.2 && v.run_at_load
                == t.3 && v.process_type == t.4),
        r is None ==> forall|v: AgentView|
            s@.subrange(it as int, n as int) != #[trigger] tail_out(v),
{
    let lit_ko = "\t<key>StandardOutPath</key>\n\t<string>";
    let lit_ke = "</string>\n\t<key>StandardErrorPath</key>\n\t<string>";

    // standard output path
    let i5 = match expect(s, n, it, lit_ko) {
        Some(j) => j,
        None => {
            proof {
                assert forall|v: AgentView| s@.subrange(it as int, n as int) != tail_out(
                    v,
                ) by {
                    if s@.subrange(it as int, n as int) == tail_out(v) {
                        lemma_parts(s@, it as int, lit_ko@, esc(v.standard_out_path) + tail_err(v));
                        assert(contains_at(s@, lit_ko@, it as int));
                        assert(false);
                    }
                }
            }
            return None;
        },
    };
    let j5 = find_lt(s, n, i5);
    proof {
        assert forall|v: AgentView|
            s@.subrange(it as int, n as int) == tail_out(v) implies (esc(v.standard_out_path)
            == s@.subrange(i5 as int, j5 as int) && s@.subrange(j5 as int, n as int) == tail_err(
            v,
        )) by {
            lemma_parts(s@, it as int, lit_ko@, esc(v.standard_out_path) + tail_err(v));
            lemma_lit_ke_first();
            assert(tail_err(v)[0] == '<');
            lemma_esc_no_lt(v.standard_out_path);
            lemma_first_lt(s@, i5 as int, j5 as int, esc(v.standard_out_path), tail_err(v));
        }
    }
    let outp = match unescape(s, n, i5, j5) {
        Some(t) => t,
        None => {
            proof {
                assert forall|v: AgentView| s@.subrange(it as int, n as int) != tail_out(
                    v,
                ) by {
                    if s@.subrange(it as int, n as int) == tail_out(v) {
                        assert(esc(v.standard_out_path) == s@.subrange(i5 as int, j5 as int));
                        assert(false);
                    }
                }
            }
            return None;
        },
    };

    // standard error path
    let i6 = match expect(s, n, j5, lit_ke) {
        Some(j) => j,
        None => {
            proof {
                assert forall|v: AgentView| s@.subrange(it as int, n as int) != tail_out(
                    v,
                ) by {
                    if s@.subrange(it as int, n as int) == tail_out(v) {
                        lemma_parts(s@, j5 as int, lit_ke@, esc(v.standard_error_path) + tail_ka(v));
                        assert(contains_at(s@, lit_ke@, j5 as int));
                        assert(false);
                    }
                }
            }
            return None;
        },
    };
    let j6 = find_lt(s, n, i6);
    proof {
        assert forall|v: AgentView|
            s@.subrange(it as int, n as int) == tail_out(v) implies (esc(v.standard_error_path)
            == s@.subrange(i6 as int, j6 as int) && s@.subrange(j6 as int, n as int) == tail_ka(
            v,
        )) by {
            lemma_parts(s@, j5 as int, lit_ke@, esc(v.standard_error_path) + tail_ka(v));
            lemma_lit_kk_first();
            assert(tail_ka(v)[0] == '<');
            lemma_esc_no_lt(v.standard_error_path);
            lemma_first_lt(s@, i6 as int, j6 as int, esc(v.standard_error_path), tail_ka(v));
        }
    }
    let errp = match unescape(s, n, i6, j6) {
        Some(t) => t,
        None => {
            proof {
                assert forall|v: AgentView| s@.subrange(it as int, n as int) != tail_out(
                    v,
                ) by {
                    if s@.subrange(it as int, n as int) == tail_out(v) {
                        assert(esc(v.standard_error_path) == s@.subrange(i6 as int, j6 as int));
                        assert(false);
                    }
                }
            }
            return None;
        },
    };

    // flags, scheduling class and closing tags
    let (keep_alive, run_at_load, process_type) = match parse_flags(s, n, j6) {
        Some(t) => t,
        None => {
            proof {
                assert forall|v: AgentView| s@.subrange(it as int, n as int) != tail_out(
                    v,
                ) by {
                    if s@.subrange(it as int, n as int) == tail_out(v) {
                        assert(s@.subrange(j6 as int, n as int) == tail_ka(v));
                        assert(false);
                    }
                }
            }
            return None;
        },
    };
    proof {
        let pv = partial_view(outp@, errp@, keep_alive, run_at_load, process_type);
        assert(tail_ka(
            partial_view(
                Seq::<char>::empty(),
                Seq::<char>::empty(),
                keep_alive,
                run_at_load,
                process_type,
            ),
        ) == tail_ka(pv));
        lemma_assemble_tail(s@, pv, it as int, i5 as int, j5 as int, i6 as int, j6 as int);
        assert forall|v: AgentView|
            s@.subrange(it as int, n as int) == tail_out(v) implies (v.standard_out_path == outp@
            && v.standard_error_path == errp@ && v.keep_alive == keep_alive && v.run_at_load
            == run_at_load && v.process_type == process_type) by {
            assert(esc(v.standard_out_path) == s@.subrange(i5 as int, j5 as int));
            assert(esc(v.standard_error_path) == s@.subrange(i6 as int, j6 as int));
            assert(s@.subrange(j6 as int, n as int) == tail_ka(v));
        }
    }
    Some((outp, errp, keep_alive, run_at_load, process_type))
}

impl LaunchAgent {
    /// Decode a canonical descriptor file. Succeeds exactly on texts
    /// that [`LaunchAgent::to_plist_xml`] produces, and then returns
    /// exactly the descriptor that produced the text; any other text —
    /// malformed structure, keys out of order, an unrecognized
    /// scheduling-class token, a bare `&` or `>` in a value, trailing
    /// content — is a format error.
    #[verifier::rlimit(100)]
    pub fn from_plist_xml(s: &str) -> (r: Result<LaunchAgent, LaunchAgentError>)
        ensures
            r matches Ok(a) ==> canonical_for(s@, a@),
            r matches Err(e) ==> e == LaunchAgentError::FormatError,
            forall|v: AgentView| canonical_for(s@, v) ==> (r matches Ok(a) && a@ == v),
    {
        let lit_hd =
            "<?xml version=\"1.0\" encoding=\"UTF-8\"?>\n<!DOCTYPE plist PUBLIC \"-//Apple//DTD PLIST 1.0//EN\" \"http://www.apple.com/DTDs/PropertyList-1.0.dtd\">\n<plist version=\"1.0\">\n<dict>\n\t<key>Label</key>\n\t<string>";
        let lit_ka = "</string>\n\t<key>ProgramArguments</key>\n";
        let n = s.unicode_len();

        // Prologue through the opening of the label value.
        let i1 = match expect(s, n, 0, lit_hd) {
            Some(j) => j,
            None => {
                proof {
                    assert forall|v: AgentView| !canonical_for(s@, v) by {
                        if canonical_for(s@, v) {
                            assert(s@.subrange(0, n as int) =~= s@);
                            lemma_parts(s@, 0, lit_hd@, esc(v.label) + tail_arr(v));
                            assert(contains_at(s@, lit_hd@, 0));
                            assert(false);
                        }
                    }
                }
                return Err(LaunchAgentError::FormatError);
            },
        };

        // The label runs to the next '<'.
        let j1 = find_lt(s, n, i1);
        proof {
            assert forall|v: AgentView| canonical_for(s@, v) implies (j1 == i1 + esc(
                v.label,
            ).len() && esc(v.label) == s@.subrange(i1 as int, j1 as int) && s@.subrange(
                j1 as int,
                n as int,
            ) == tail_arr(v)) by {
                assert(s@.subrange(0, n as int) =~= s@);
                lemma_parts(s@, 0, lit_hd@, esc(v.label) + tail_arr(v));
                lemma_lit_ka_first();
                assert(tail_arr(v)[0] == '<');
                lemma_esc_no_lt(v.label);
                lemma_first_lt(s@, i1 as int, j1 as int, esc(v.label), tail_arr(v));
            }
        }
        let label = match unescape(s, n, i1, j1) {
            Some(t) => t,
            None => {
                proof {
                    assert forall|v: AgentView| !canonical_for(s@, v) by {
                        if canonical_for(s@, v) {
                            assert(esc(v.label) == s@.subrange(i1 as int, j1 as int));
                            assert(false);
                        }
                    }
                }
                return Err(LaunchAgentError::FormatError);
            },
        };

        // Key line for the argument list.
        let i2 = match expect(s, n, j1, lit_ka) {
            Some(j) => j,
            None => {
                proof {
                    assert forall|v: AgentView| !canonical_for(s@, v) by {
                        if canonical_for(s@, v) {
                            lemma_parts(
                                s@,
                                j1 as int,
                                lit_ka@,
                                args_block(v.program_arguments) + tail_out(v),
                            );
                            assert(contains_at(s@, lit_ka@, j1 as int));
                            assert(false);
                        }
                    }
                }
                return Err(LaunchAgentError::FormatError);
            },
        };
        proof {
            assert forall|v: AgentView| canonical_for(s@, v) implies (v.label == label@
                && s@.subrange(i2 as int, n as int) == args_block(v.program_arguments) + tail_out(
                v,
            )) by {
                assert(esc(v.label) == s@.subrange(i1 as int, j1 as int));
                lemma_parts(s@, j1 as int, lit_ka@, args_block(v.program_arguments) + tail_out(v));
            }
        }

        // The argument array.
        let (args, iarr) = match parse_args(s, n, i2) {
            Some(p) => p,
            None => {
                proof {
                    assert forall|v: AgentView| !canonical_for(s@, v) by {
                        if canonical_for(s@, v) {
                            lemma_parts(
                                s@,
                                i2 as int,
                                args_block(v.program_arguments),
                                tail_out(v),
                            );
                            assert(contains_at(s@, args_block(v.program_arguments), i2 as int));
                            assert(false);
                        }
                    }
                }
                return Err(LaunchAgentError::FormatError);
            },
        };
        proof {
            assert forall|v: AgentView| canonical_for(s@, v) implies (v.label == label@
                && v.program_arguments == args.deep_view() && s@.subrange(iarr as int, n as int)
                == tail_out(v)) by {
                lemma_parts(s@, i2 as int, args_block(v.program_arguments), tail_out(v));
                assert(contains_at(s@, args_block(v.program_arguments), i2 as int));
            }
        }

        // Everything after the argument array.
        let (standard_out_path, standard_error_path, keep_alive, run_at_load, process_type) =
            match parse_tail(s, n, iarr) {
            Some(t) => t,
            None => {
                proof {
                    assert forall|v: AgentView| !canonical_for(s@, v) by {
                        if canonical_for(s@, v) {
                            assert(s@.subrange(iarr as int, n as int) == tail_out(v));
                            assert(false);
                        }
                    }
                }
                return Err(LaunchAgentError::FormatError);
            },
        };
        proof {
            assert forall|v: AgentView| canonical_for(s@, v) implies (v.standard_out_path
                == standard_out_path@ && v.standard_error_path == standard_error_path@
                && v.keep_alive == keep_alive && v.run_at_load == run_at_load && v.process_type
                == process_type) by {
                assert(s@.subrange(iarr as int, n as int) == tail_out(v));
            }
        }

        let a = LaunchAgent {
            label,
            program_arguments: args,
            standard_out_path,
            standard_error_path,
            keep_alive,
            run_at_load,
            process_type,
        };
        proof {
            let av = a@;
            assert(tail_out(
                partial_view(
                    av.standard_out_path,
                    av.standard_error_path,
                    av.keep_alive,
                    av.run_at_load,
                    av.process_type,
                ),
            ) == tail_out(av));
            lemma_assemble(s@, av, i1 as int, j1 as int, i2 as int, iarr as int);
            assert(s@ == plist_view(av));
            assert forall|v: AgentView| canonical_for(s@, v) implies v == av by {
                assert(v =~= av);
            }
        }
        Ok(a)
    }
}


/// Round trip: the canonical file of every descriptor value encodes
/// exactly that value, so rendering a descriptor with
/// [`LaunchAgent::to_plist_xml`] and decoding the text with
/// [`LaunchAgent::from_plist_xml`] yields an equal descriptor, for all
/// field combinations.
pub proof fn lemma_round_trip(v: AgentView)
    ensures
        canonical_for(plist_view(v), v),
{
}

} // verus!
