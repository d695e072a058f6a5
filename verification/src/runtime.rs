//! The command engine's decisions: what a command line runs, which flags it
//! sets, what a command's reply prints, and the refs kept between commands.

use vstd::prelude::*;
use crate::json::{JsonValue, json_get, json_str, member_str};
use crate::snapshot_format::{SnapshotRef, ref_entry_view, RefEntry};
use crate::text::{chars_of, is_text, push_all, push_str, string_of};

verus! {

// ---------------------------------------------------------------------------
// Output

/// What one command prints, and whether the terminal is cleared.
#[derive(Debug)]
pub struct RunOutput {
    pub stdout: String,
    pub stderr: String,
    pub exit_code: i32,
    pub clear: bool,
}

impl RunOutput {
    /// A successful run that prints `stdout`.
    pub fn success(stdout: String) -> (r: Self)
        ensures
            r.stdout@ == stdout@,
            r.stderr@ == Seq::<char>::empty(),
            r.exit_code == 0,
            !r.clear,
    {
        RunOutput { stdout, stderr: String::new(), exit_code: 0, clear: false }
    }

    /// A run that clears the terminal.
    pub fn clear() -> (r: Self)
        ensures
            r.stdout@ == Seq::<char>::empty(),
            r.stderr@ == Seq::<char>::empty(),
            r.exit_code == 0,
            r.clear,
    {
        RunOutput { stdout: String::new(), stderr: String::new(), exit_code: 0, clear: true }
    }

    /// A failed run that reports `stderr`.
    pub fn error(stderr: String) -> (r: Self)
        ensures
            r.stdout@ == Seq::<char>::empty(),
            r.stderr@ == stderr@,
            r.exit_code == 1,
            !r.clear,
    {
        RunOutput { stdout: String::new(), stderr, exit_code: 1, clear: false }
    }
}

// ---------------------------------------------------------------------------
// Refs kept between commands

/// The refs of the last snapshot.
#[derive(Debug)]
pub struct WasmState {
    pub refs: Vec<(String, SnapshotRef)>,
}

/// The entry stored under `label`: the first with that label.
pub open spec fn stored_ref(refs: Seq<RefEntry>, label: Seq<char>) -> Option<RefEntry>
    decreases refs.len(),
{
    if refs.len() == 0 {
        None
    } else if refs[0].0 == label {
        Some(refs[0])
    } else {
        stored_ref(refs.drop_first(), label)
    }
}

impl WasmState {
    /// The stored refs as plain values.
    pub open spec fn entries(&self) -> Seq<RefEntry> {
        self.refs@.map_values(|r: (String, SnapshotRef)| ref_entry_view(r))
    }

    /// No label is stored twice.
    pub open spec fn wf(&self) -> bool {
        crate::snapshot_format::distinct_labels(self.entries())
    }

    /// A state with no refs.
    pub fn new() -> (s: Self)
        ensures
            s.entries().len() == 0,
            s.wf(),
    {
        let s = WasmState { refs: Vec::new() };
        assert(s.entries() =~= Seq::<RefEntry>::empty());
        s
    }

    /// Keeps the refs of a new snapshot in place of the old ones.
    pub fn store_refs(&mut self, refs: Vec<(String, SnapshotRef)>)
        requires
            crate::snapshot_format::distinct_labels(crate::snapshot_format::ref_list_view(refs@)),
        ensures
            final(self).entries() == refs@.map_values(|r: (String, SnapshotRef)| ref_entry_view(r)),
            final(self).wf(),
    {
        self.refs = refs;
    }

    /// The ref stored under `label`.
    pub fn lookup_ref(&self, label: &str) -> (r: Option<&SnapshotRef>)
        ensures
            match r {
                Some(entry) => stored_ref(self.entries(), label@) matches Some(e) && e.1
                    == entry.backend_node_id && e.2 == entry.role@ && e.3 == entry.name@,
                None => stored_ref(self.entries(), label@) is None,
            },
    {
        let wanted = chars_of(label);
        let mut i: usize = 0;
        let ghost all = self.entries();
        assert(all.skip(0) =~= all);
        while i < self.refs.len()
            invariant
                i <= self.refs@.len(),
                wanted@ == label@,
                all == self.entries(),
                stored_ref(all, label@) == stored_ref(all.skip(i as int), label@),
            decreases self.refs@.len() - i,
        {
            let key = chars_of(self.refs[i].0.as_str());
            let ghost rest = all.skip(i as int);
            assert(rest[0] == ref_entry_view(self.refs@[i as int]));
            if crate::text::chars_eq(&key, &wanted) {
                assert(rest.len() > 0);
                return Some(&self.refs[i].1);
            }
            assert(rest.drop_first() =~= all.skip(i + 1));
            i = i + 1;
        }
        None
    }
}

/// When no label is stored twice, looking up the label of any stored entry
/// finds that entry.
pub proof fn lemma_lookup_distinct(rs: Seq<RefEntry>, k: int)
    requires
        crate::snapshot_format::distinct_labels(rs),
        0 <= k < rs.len(),
    ensures
        stored_ref(rs, rs[k].0) == Some(rs[k]),
    decreases k,
{
    if k > 0 {
        assert(rs[0].0 != rs[k].0);
        let rest = rs.drop_first();
        assert forall|i: int, j: int| 0 <= i < j < rest.len() implies #[trigger] rest[i].0
            != #[trigger] rest[j].0 by {
            assert(rest[i] == rs[i + 1]);
            assert(rest[j] == rs[j + 1]);
        }
        assert(rest[k - 1] == rs[k]);
        lemma_lookup_distinct(rest, k - 1);
    }
}

/// Forgets the refs of the last snapshot.
pub fn reset_state(state: &mut WasmState)
    ensures
        final(state).entries().len() == 0,
        final(state).wf(),
{
    state.refs = Vec::new();
    assert(final(state).entries() =~= Seq::<RefEntry>::empty());
}

} // verus!

verus! {

// ---------------------------------------------------------------------------
// Flags

/// The global flags that the browser build reads.
#[derive(Debug)]
pub struct WasmFlags {
    pub json: bool,
    pub content_boundaries: bool,
    pub max_output: Option<usize>,
    pub cdp: Option<String>,
    pub session: String,
    pub input_mode: String,
    pub verbose: bool,
    pub quiet: bool,
}

/// The flags as plain values.
pub struct FlagsModel {
    pub json: bool,
    pub content_boundaries: bool,
    pub max_output: Option<usize>,
    pub cdp: Option<Seq<char>>,
    pub session: Seq<char>,
    pub input_mode: Seq<char>,
    pub verbose: bool,
    pub quiet: bool,
}

impl WasmFlags {
    /// The flags as plain values.
    pub open spec fn model(&self) -> FlagsModel {
        FlagsModel {
            json: self.json,
            content_boundaries: self.content_boundaries,
            max_output: self.max_output,
            cdp: match self.cdp {
                Some(c) => Some(c@),
                None => None,
            },
            session: self.session@,
            input_mode: self.input_mode@,
            verbose: self.verbose,
            quiet: self.quiet,
        }
    }
}

/// The value of a boolean flag at `index`, and whether it took the next
/// argument: an explicit `true` or `false` is taken; otherwise the flag is on.
pub open spec fn bool_arg(args: Seq<String>, index: int) -> (bool, bool) {
    if index + 1 < args.len() && args[index + 1]@ == "true"@ {
        (true, true)
    } else if index + 1 < args.len() && args[index + 1]@ == "false"@ {
        (false, true)
    } else {
        (true, false)
    }
}

/// The argument after `index` read as a `usize`, if it is one.
pub open spec fn next_usize(args: Seq<String>, index: int) -> Option<usize> {
    if index + 1 < args.len() {
        match crate::text::parse_usize_spec(args[index + 1]@) {
            Some(v) => Some(v as usize),
            None => None,
        }
    } else {
        None
    }
}

/// The flags read from `args` onward from `i`, starting from `f`. A flag
/// that takes a value consumes the next argument when it can use it.
pub open spec fn scan_flags(args: Seq<String>, i: int, f: FlagsModel) -> FlagsModel
    decreases args.len() - i,
{
    if i < 0 || i >= args.len() {
        f
    } else {
        let a = args[i]@;
        let has_next = i + 1 < args.len();
        if a == "--json"@ {
            let (v, used) = bool_arg(args, i);
            scan_flags(args, if used { i + 2 } else { i + 1 }, FlagsModel { json: v, ..f })
        } else if a == "--content-boundaries"@ {
            let (v, used) = bool_arg(args, i);
            scan_flags(
                args,
                if used { i + 2 } else { i + 1 },
                FlagsModel { content_boundaries: v, ..f },
            )
        } else if a == "--max-output"@ {
            match next_usize(args, i) {
                Some(v) => scan_flags(args, i + 2, FlagsModel { max_output: Some(v), ..f }),
                None => scan_flags(args, i + 1, f),
            }
        } else if a == "--cdp"@ && has_next {
            scan_flags(args, i + 2, FlagsModel { cdp: Some(args[i + 1]@), ..f })
        } else if a == "--session"@ && has_next {
            scan_flags(args, i + 2, FlagsModel { session: args[i + 1]@, ..f })
        } else if a == "--input-mode"@ && has_next {
            scan_flags(args, i + 2, FlagsModel { input_mode: args[i + 1]@, ..f })
        } else if a == "-v"@ || a == "--verbose"@ {
            scan_flags(args, i + 1, FlagsModel { verbose: true, ..f })
        } else if a == "-q"@ || a == "--quiet"@ {
            scan_flags(args, i + 1, FlagsModel { quiet: true, ..f })
        } else {
            scan_flags(args, i + 1, f)
        }
    }
}

/// Reads a boolean flag at `index`: an explicit `true` or `false` after it
/// is its value and is consumed; otherwise the flag is on.
pub fn parse_bool_arg(args: &[String], index: usize) -> (r: (bool, bool))
    requires
        index < usize::MAX,
    ensures
        r == bool_arg(args@, index as int),
{
    if index + 1 < args.len() {
        let next = chars_of(args[index + 1].as_str());
        if is_text(&next, "true") {
            return (true, true);
        }
        if is_text(&next, "false") {
            return (false, true);
        }
    }
    (true, false)
}

/// Reads the global flags that the browser build uses from `args`, over
/// the given defaults.
pub fn wasm_flags(args: &[String], defaults: WasmFlags) -> (parsed: WasmFlags)
    ensures
        parsed.model() == scan_flags(args@, 0, defaults.model()),
{
    let mut parsed = defaults;
    let mut index: usize = 0;
    while index < args.len()
        invariant
            index <= args@.len(),
            scan_flags(args@, 0, defaults.model()) == scan_flags(
                args@,
                index as int,
                parsed.model(),
            ),
        decreases args@.len() - index,
    {
        let arg = chars_of(args[index].as_str());
        let has_next = index + 1 < args.len();
        if is_text(&arg, "--json") {
            let (value, consumed) = parse_bool_arg(args, index);
            parsed.json = value;
            if consumed {
                index = index + 1;
            }
        } else if is_text(&arg, "--content-boundaries") {
            let (value, consumed) = parse_bool_arg(args, index);
            parsed.content_boundaries = value;
            if consumed {
                index = index + 1;
            }
        } else if is_text(&arg, "--max-output") {
            if has_next {
                let next = chars_of(args[index + 1].as_str());
                match crate::text::parse_usize(&next) {
                    Some(value) => {
                        parsed.max_output = Some(value);
                        index = index + 1;
                    },
                    None => {},
                }
            }
        } else if is_text(&arg, "--cdp") && has_next {
            parsed.cdp = Some(args[index + 1].clone());
            index = index + 1;
        } else if is_text(&arg, "--session") && has_next {
            parsed.session = args[index + 1].clone();
            index = index + 1;
        } else if is_text(&arg, "--input-mode") && has_next {
            parsed.input_mode = args[index + 1].clone();
            index = index + 1;
        } else if is_text(&arg, "-v") || is_text(&arg, "--verbose") {
            parsed.verbose = true;
        } else if is_text(&arg, "-q") || is_text(&arg, "--quiet") {
            parsed.quiet = true;
        }
        index = index + 1;
    }
    parsed
}

} // verus!

verus! {

/// An argument that the flag reader acts on.
pub open spec fn is_flag_word(a: Seq<char>) -> bool {
    a == "--json"@ || a == "--content-boundaries"@ || a == "--max-output"@ || a == "--cdp"@ || a
        == "--session"@ || a == "--input-mode"@ || a == "-v"@ || a == "--verbose"@ || a == "-q"@
        || a == "--quiet"@
}

proof fn lemma_no_flags_from(args: Seq<String>, i: int, f: FlagsModel)
    requires
        0 <= i,
        forall|j: int| 0 <= j < args.len() ==> !is_flag_word(#[trigger] args[j]@),
    ensures
        scan_flags(args, i, f) == f,
    decreases args.len() - i,
{
    if i < args.len() {
        assert(!is_flag_word(args[i]@));
        lemma_no_flags_from(args, i + 1, f);
    }
}

/// Arguments among which no flag occurs leave every flag at its default.
pub proof fn lemma_no_flags_keep_defaults(args: Seq<String>, f: FlagsModel)
    requires
        forall|j: int| 0 <= j < args.len() ==> !is_flag_word(#[trigger] args[j]@),
    ensures
        scan_flags(args, 0, f) == f,
{
    lemma_no_flags_from(args, 0, f);
}

/// A flag whose value is the next argument.
pub open spec fn takes_value(a: Seq<char>) -> bool {
    a == "--cdp"@ || a == "--session"@ || a == "--input-mode"@
}

proof fn lemma_input_mode_last_from(
    a: Seq<String>,
    flag: String,
    value: String,
    i: int,
    f: FlagsModel,
)
    requires
        0 <= i <= a.len(),
        flag@ == "--input-mode"@,
        a.len() > 0 ==> !takes_value(a.last()@),
    ensures
        scan_flags(a + seq![flag, value], i, f).input_mode == value@,
    decreases a.len() - i,
{
    reveal_strlit("--input-mode");
    reveal_strlit("true");
    reveal_strlit("false");
    let args = a + seq![flag, value];
    assert(args[a.len() as int] == flag);
    assert(args[a.len() as int + 1] == value);
    if i == a.len() {
        reveal_strlit("--json");
        reveal_strlit("--content-boundaries");
        reveal_strlit("--max-output");
        reveal_strlit("--cdp");
        reveal_strlit("--session");
        assert(args[i]@ != "--json"@ && args[i]@ != "--content-boundaries"@ && args[i]@
            != "--max-output"@ && args[i]@ != "--cdp"@ && args[i]@ != "--session"@) by {
            assert(args[i]@[2] != "--json"@[2]);
            assert(args[i]@[2] != "--content-boundaries"@[2]);
            assert(args[i]@[2] != "--max-output"@[2]);
            assert(args[i]@[2] != "--cdp"@[2]);
            assert(args[i]@[2] != "--session"@[2]);
        }
        let g = FlagsModel { input_mode: value@, ..f };
        assert(scan_flags(args, i + 2, g) == g);
    } else {
        let x = args[i]@;
        assert(args[i] == a[i]);
        let last = i == a.len() - 1;
        if last {
            assert(a.last() == a[i]);
            assert(args[i + 1]@ == "--input-mode"@);
            assert(args[i + 1]@ != "true"@ && args[i + 1]@ != "false"@) by {
                assert(args[i + 1]@[2] != "true"@[2]);
                assert(args[i + 1]@.len() != "false"@.len());
            }
            assert(crate::text::digit_value(args[i + 1]@[0]) is None);
            assert(next_usize(args, i) is None) by {
                let s = args[i + 1]@;
                assert(s[0] == '-');
                assert(!crate::text::all_digits(s));
            }
        }
        if x == "--json"@ {
            let (v, used) = bool_arg(args, i);
            lemma_input_mode_last_from(
                a,
                flag,
                value,
                if used { i + 2 } else { i + 1 },
                FlagsModel { json: v, ..f },
            );
        } else if x == "--content-boundaries"@ {
            let (v, used) = bool_arg(args, i);
            lemma_input_mode_last_from(
                a,
                flag,
                value,
                if used { i + 2 } else { i + 1 },
                FlagsModel { content_boundaries: v, ..f },
            );
        } else if x == "--max-output"@ {
            match next_usize(args, i) {
                Some(v) => lemma_input_mode_last_from(
                    a,
                    flag,
                    value,
                    i + 2,
                    FlagsModel { max_output: Some(v), ..f },
                ),
                None => lemma_input_mode_last_from(a, flag, value, i + 1, f),
            }
        } else if x == "--cdp"@ {
            lemma_input_mode_last_from(a, flag, value, i + 2, FlagsModel { cdp: Some(args[i + 1]@), ..f });
        } else if x == "--session"@ {
            lemma_input_mode_last_from(a, flag, value, i + 2, FlagsModel { session: args[i + 1]@, ..f });
        } else if x == "--input-mode"@ {
            lemma_input_mode_last_from(
                a,
                flag,
                value,
                i + 2,
                FlagsModel { input_mode: args[i + 1]@, ..f },
            );
        } else if x == "-v"@ || x == "--verbose"@ {
            lemma_input_mode_last_from(a, flag, value, i + 1, FlagsModel { verbose: true, ..f });
        } else if x == "-q"@ || x == "--quiet"@ {
            lemma_input_mode_last_from(a, flag, value, i + 1, FlagsModel { quiet: true, ..f });
        } else {
            lemma_input_mode_last_from(a, flag, value, i + 1, f);
        }
    }
}

/// The last `--input-mode` given wins: after any arguments that do not end
/// in a flag waiting for its value, `--input-mode m` sets the mode to `m`.
pub proof fn lemma_last_input_mode_wins(a: Seq<String>, flag: String, value: String, f: FlagsModel)
    requires
        flag@ == "--input-mode"@,
        a.len() > 0 ==> !takes_value(a.last()@),
    ensures
        scan_flags(a + seq![flag, value], 0, f).input_mode == value@,
{
    lemma_input_mode_last_from(a, flag, value, 0, f);
}

} // verus!

verus! {

// ---------------------------------------------------------------------------
// Commands that the browser build lacks

/// Some argument is `--all`.
pub open spec fn has_all_flag(clean: Seq<String>) -> bool {
    exists|i: int| 0 <= i < clean.len() && #[trigger] clean[i]@ == "--all"@
}

/// The message for a top-level command that the browser build lacks.
pub open spec fn unavailable_message(clean: Seq<String>) -> Option<Seq<char>> {
    if clean.len() == 0 {
        None
    } else {
        let c = clean[0]@;
        if c == "install"@ || c == "upgrade"@ || c == "doctor"@ || c == "dashboard"@ || c
            == "profiles"@ || c == "skills"@ || c == "session"@ || c == "chat"@ {
            Some("Command is not available in the browser build: "@ + c)
        } else if (c == "close"@ || c == "quit"@ || c == "exit"@) && has_all_flag(clean) {
            Some("Command is not available in the browser build: close --all"@)
        } else {
            None
        }
    }
}

fn any_is(args: &[String], lit: &str) -> (r: bool)
    ensures
        r == exists|i: int| 0 <= i < args@.len() && #[trigger] args@[i]@ == lit@,
{
    let mut i: usize = 0;
    while i < args.len()
        invariant
            i <= args@.len(),
            forall|j: int| 0 <= j < i ==> #[trigger] args@[j]@ != lit@,
        decreases args@.len() - i,
    {
        let a = chars_of(args[i].as_str());
        if is_text(&a, lit) {
            return true;
        }
        i = i + 1;
    }
    false
}

/// The message for a top-level command that the browser build lacks:
/// installing, upgrading, diagnostics, the dashboard, profiles, skills,
/// sessions, chat, and closing all sessions.
pub fn unavailable_top_level_command(clean: &[String]) -> (r: Option<String>)
    ensures
        match r {
            Some(m) => unavailable_message(clean@) == Some(m@),
            None => unavailable_message(clean@) is None,
        },
{
    if clean.len() == 0 {
        return None;
    }
    let c = chars_of(clean[0].as_str());
    if is_text(&c, "install") || is_text(&c, "upgrade") || is_text(&c, "doctor") || is_text(
        &c,
        "dashboard",
    ) || is_text(&c, "profiles") || is_text(&c, "skills") || is_text(&c, "session") || is_text(
        &c,
        "chat",
    ) {
        let mut out: Vec<char> = Vec::new();
        push_str(&mut out, "Command is not available in the browser build: ");
        push_all(&mut out, &c);
        return Some(string_of(&out));
    }
    if (is_text(&c, "close") || is_text(&c, "quit") || is_text(&c, "exit")) && any_is(
        clean,
        "--all",
    ) {
        return Some(String::from_str("Command is not available in the browser build: close --all"));
    }
    None
}

// ---------------------------------------------------------------------------
// Element refs

/// An ASCII decimal digit.
pub open spec fn is_ascii_digit(c: char) -> bool {
    '0' <= c <= '9'
}

/// `selector` without one leading `@`.
pub open spec fn without_at(selector: Seq<char>) -> Seq<char> {
    if selector.len() > 0 && selector[0] == '@' {
        selector.drop_first()
    } else {
        selector
    }
}

/// The ref that a selector names: `e` and one or more ASCII digits, with
/// or without a leading `@`.
pub open spec fn ref_of(selector: Seq<char>) -> Option<Seq<char>> {
    let v = without_at(selector);
    if v.len() > 1 && v[0] == 'e' && forall|i: int| 1 <= i < v.len() ==> is_ascii_digit(
        #[trigger] v[i],
    ) {
        Some(v)
    } else {
        None
    }
}

/// The ref that a selector names, if it names one.
pub fn normalize_ref(selector: &str) -> (r: Option<String>)
    ensures
        match r {
            Some(v) => ref_of(selector@) == Some(v@),
            None => ref_of(selector@) is None,
        },
{
    let s = chars_of(selector);
    let start: usize = if s.len() > 0 && s[0] == '@' {
        1
    } else {
        0
    };
    let v = crate::text::slice_chars(&s, start, s.len());
    assert(v@ =~= without_at(selector@));
    if v.len() > 1 && v[0] == 'e' {
        let mut i: usize = 1;
        while i < v.len()
            invariant
                1 <= i <= v@.len(),
                v@ == without_at(selector@),
                v@.len() > 1,
                v@[0] == 'e',
                forall|j: int| 1 <= j < i ==> is_ascii_digit(#[trigger] v@[j]),
            decreases v@.len() - i,
        {
            if !('0' <= v[i] && v[i] <= '9') {
                assert(!is_ascii_digit(v@[i as int]));
                return None;
            }
            i = i + 1;
        }
        return Some(string_of(&v));
    }
    None
}

/// The ref error for a label that is not stored.
pub open spec fn missing_ref_message(label: Seq<char>) -> Seq<char> {
    "Ref not found: @"@ + label + ". Run agent-browser snapshot again."@
}

/// The ref error for a stored label whose element is gone.
pub open spec fn stale_ref_message(label: Seq<char>) -> Seq<char> {
    "Ref is stale: @"@ + label + ". Run agent-browser snapshot again."@
}

/// What a selector resolves to among the stored refs.
#[derive(Debug)]
pub enum RefTarget {
    /// The selector is not a ref.
    Selector,
    /// The ref with this label is stored for this DOM node.
    Node(String, i64),
    /// The ref is not stored; the message says so.
    Missing(String),
}

/// Resolves a selector that names a ref to the DOM node stored for it.
pub fn resolve_ref(state: &WasmState, selector: &str) -> (r: RefTarget)
    ensures
        match r {
            RefTarget::Selector => ref_of(selector@) is None,
            RefTarget::Node(label, id) => ref_of(selector@) == Some(label@) && (stored_ref(
                state.entries(),
                label@,
            ) matches Some(e) && e.1 == id),
            RefTarget::Missing(m) => (ref_of(selector@) matches Some(label) && stored_ref(
                state.entries(),
                label,
            ) is None && m@ == missing_ref_message(label)),
        },
{
    match normalize_ref(selector) {
        None => RefTarget::Selector,
        Some(label) => match state.lookup_ref(label.as_str()) {
            Some(entry) => RefTarget::Node(label, entry.backend_node_id),
            None => {
                let mut m: Vec<char> = Vec::new();
                push_str(&mut m, "Ref not found: @");
                push_str(&mut m, label.as_str());
                push_str(&mut m, ". Run agent-browser snapshot again.");
                RefTarget::Missing(string_of(&m))
            },
        },
    }
}

/// The error for a stored ref whose element is gone.
pub fn stale_ref_error(label: &str) -> (m: String)
    ensures
        m@ == stale_ref_message(label@),
{
    let mut m: Vec<char> = Vec::new();
    push_str(&mut m, "Ref is stale: @");
    push_str(&mut m, label);
    push_str(&mut m, ". Run agent-browser snapshot again.");
    string_of(&m)
}

/// The remote object of a resolved node: `object.objectId` of the reply.
pub open spec fn object_id_of(resolved: JsonValue) -> Option<Seq<char>> {
    match json_get(resolved, "object"@) {
        Some(o) => member_str(o, "objectId"@),
        None => None,
    }
}

/// The object that `DOM.resolveNode` gave for the node of the stored ref
/// `label`; the stale-ref error when the reply holds none.
pub fn resolved_object_id(resolved: &JsonValue, label: &str) -> (r: Result<String, String>)
    ensures
        match object_id_of(*resolved) {
            Some(id) => r matches Ok(s) && s@ == id,
            None => r matches Err(m) && m@ == stale_ref_message(label@),
        },
{
    match resolved.get("object") {
        Some(o) => match o.member_str("objectId") {
            Some(id) => Ok(String::from_str(id)),
            None => Err(stale_ref_error(label)),
        },
        None => Err(stale_ref_error(label)),
    }
}

// ---------------------------------------------------------------------------
// Page content

/// Options of the output that this build reads.
#[derive(Debug)]
pub struct OutputOptions {
    pub json: bool,
    pub content_boundaries: bool,
    pub max_output: Option<usize>,
}

/// `content` cut to `limit` characters, with a note that says so, when it
/// is longer.
pub open spec fn truncated(content: Seq<char>, limit: Option<usize>) -> Seq<char> {
    match limit {
        None => content,
        Some(l) => if content.len() <= l {
            content
        } else {
            content.take(l as int) + "\n[truncated: showing "@ + crate::text::decimal(l as nat)
                + " of "@ + crate::text::decimal(content.len()) + " chars. Use --max-output to adjust]"@
        },
    }
}

/// Cuts `content` to `limit` characters and says so, when it is longer.
pub fn truncate_if_needed(content: &str, limit: Option<usize>) -> (out: String)
    ensures
        out@ == truncated(content@, limit),
{
    match limit {
        None => String::from_str(content),
        Some(limit) => {
            let chars = chars_of(content);
            if chars.len() <= limit {
                return String::from_str(content);
            }
            let mut out = crate::text::slice_chars(&chars, 0, limit);
            push_str(&mut out, "\n[truncated: showing ");
            crate::text::push_decimal(&mut out, limit as u64);
            push_str(&mut out, " of ");
            crate::text::push_decimal(&mut out, chars.len() as u64);
            push_str(&mut out, " chars. Use --max-output to adjust]");
            assert(chars@.subrange(0, limit as int) =~= content@.take(limit as int));
            string_of(&out)
        },
    }
}

/// Page content as printed: truncated, and framed with its origin when
/// content boundaries are on.
pub open spec fn page_text(content: Seq<char>, origin: Option<Seq<char>>, options: OutputOptions) -> Seq<
    char,
> {
    let body = truncated(content, options.max_output);
    if !options.content_boundaries {
        body
    } else {
        "--- AGENT_BROWSER_PAGE_CONTENT nonce=wasm origin="@ + (match origin {
            Some(o) => o,
            None => "unknown"@,
        }) + " ---\n"@ + body + "\n--- END_AGENT_BROWSER_PAGE_CONTENT nonce=wasm ---"@
    }
}

/// Page content as printed: truncated, and framed with its origin when
/// content boundaries are on.
pub fn page_content(content: &str, origin: Option<&str>, options: &OutputOptions) -> (out: String)
    ensures
        out@ == page_text(
            content@,
            match origin {
                Some(o) => Some(o@),
                None => None,
            },
            *options,
        ),
{
    let body = truncate_if_needed(content, options.max_output);
    if !options.content_boundaries {
        return body;
    }
    let mut out: Vec<char> = Vec::new();
    push_str(&mut out, "--- AGENT_BROWSER_PAGE_CONTENT nonce=wasm origin=");
    match origin {
        Some(o) => push_str(&mut out, o),
        None => push_str(&mut out, "unknown"),
    }
    push_str(&mut out, " ---\n");
    push_str(&mut out, body.as_str());
    push_str(&mut out, "\n--- END_AGENT_BROWSER_PAGE_CONTENT nonce=wasm ---");
    string_of(&out)
}

} // verus!

verus! {

// ---------------------------------------------------------------------------
// Help text

/// How many `#` follow from `j` on.
pub open spec fn hash_run(s: Seq<char>, j: int) -> nat
    decreases s.len() - j,
{
    if 0 <= j < s.len() && s[j] == '#' {
        1 + hash_run(s, j + 1)
    } else {
        0
    }
}

/// A raw string literal opens at `i`: `r`, any number of `#`, then `"`.
pub open spec fn opens_raw_at(s: Seq<char>, i: int) -> bool {
    &&& 0 <= i < s.len()
    &&& s[i] == 'r'
    &&& i + 1 + hash_run(s, i + 1) < s.len()
    &&& s[i + 1 + hash_run(s, i + 1)] == '"'
}

/// The first raw string literal that opens at or after `i`.
pub open spec fn first_raw_open(s: Seq<char>, i: int) -> Option<int>
    decreases s.len() - i,
{
    if i < 0 || i >= s.len() {
        None
    } else if opens_raw_at(s, i) {
        Some(i)
    } else {
        first_raw_open(s, i + 1)
    }
}

/// The closing of a raw string literal with `h` hashes: `"` then `h` times `#`.
pub open spec fn raw_close(h: nat) -> Seq<char> {
    seq!['"'] + Seq::new(h, |k: int| '#')
}

/// The body of a raw string literal that opens at `i`, up to its first
/// matching closing; none when it is not closed.
pub open spec fn raw_body_at(s: Seq<char>, i: int) -> Option<Seq<char>> {
    let h = hash_run(s, i + 1);
    let content = s.skip(i + 2 + h);
    match crate::text::first_occurrence(content, raw_close(h)) {
        Some(e) => Some(content.take(e)),
        None => None,
    }
}

/// The body of the first raw string literal in `s`; none when there is no
/// opening, or no closing after the first one.
pub open spec fn raw_string(s: Seq<char>) -> Option<Seq<char>> {
    match first_raw_open(s, 0) {
        None => None,
        Some(i) => raw_body_at(s, i),
    }
}

/// Text written with `{{` and `}}` for literal braces, read back.
pub open spec fn println_text(t: Seq<char>) -> Seq<char> {
    crate::text::undouble(crate::text::undouble(t, '{'), '}')
}

fn count_hashes(s: &[char], j: usize) -> (n: usize)
    requires
        j <= s@.len(),
    ensures
        n == hash_run(s@, j as int),
        j + n <= s@.len(),
{
    let mut k: usize = j;
    while k < s.len() && s[k] == '#'
        invariant
            j <= k <= s@.len(),
            hash_run(s@, j as int) == (k - j) + hash_run(s@, k as int),
        decreases s@.len() - k,
    {
        k = k + 1;
    }
    k - j
}

/// The number of `#` of a raw string literal that opens at `i`, if one does.
fn raw_open_at(s: &[char], i: usize) -> (r: Option<usize>)
    requires
        i < s@.len(),
    ensures
        match r {
            Some(h) => opens_raw_at(s@, i as int) && h == hash_run(s@, i + 1),
            None => !opens_raw_at(s@, i as int),
        },
{
    if s[i] != 'r' {
        return None;
    }
    let hashes = count_hashes(s, i + 1);
    let cursor = i + 1 + hashes;
    if cursor >= s.len() || s[cursor] != '"' {
        return None;
    }
    Some(hashes)
}

/// The body of the raw string literal that opens at `i` with `hashes` hashes.
fn raw_body(s: &[char], i: usize, hashes: usize) -> (r: Option<Vec<char>>)
    requires
        opens_raw_at(s@, i as int),
        hashes == hash_run(s@, i + 1),
    ensures
        match r {
            Some(body) => raw_body_at(s@, i as int) == Some(body@),
            None => raw_body_at(s@, i as int) is None,
        },
{
    let len = s.len();
    let cursor = i + 1 + hashes;
    let content = crate::text::slice_chars(s, cursor + 1, len);
    assert(content@ =~= s@.skip(i + 2 + hashes));
    let mut marker: Vec<char> = Vec::new();
    marker.push('"');
    let mut k: usize = 0;
    assert(marker@ =~= raw_close(0));
    while k < hashes
        invariant
            k <= hashes,
            marker@ == raw_close(k as nat),
        decreases hashes - k,
    {
        marker.push('#');
        k = k + 1;
        assert(marker@ =~= raw_close(k as nat));
    }
    match crate::text::find(&content, &marker) {
        Some(end) => {
            let body = crate::text::slice_chars(&content, 0, end);
            assert(body@ =~= content@.take(end as int));
            Some(body)
        },
        None => None,
    }
}

/// The body of the first raw string literal in `source`.
pub fn extract_raw_string(source: &str) -> (r: Option<String>)
    ensures
        match r {
            Some(t) => raw_string(source@) == Some(t@),
            None => raw_string(source@) is None,
        },
{
    let s = chars_of(source);
    let mut index: usize = 0;
    while index < s.len()
        invariant
            index <= s@.len(),
            s@ == source@,
            first_raw_open(s@, 0) == first_raw_open(s@, index as int),
        decreases s@.len() - index,
    {
        match raw_open_at(&s, index) {
            Some(hashes) => {
                return match raw_body(&s, index, hashes) {
                    Some(body) => Some(string_of(&body)),
                    None => None,
                };
            },
            None => {
                index = index + 1;
            },
        }
    }
    None
}

/// Reads text written for `println!` back: `{{` as `{`, then `}}` as `}`.
pub fn decode_println_format(text: &str) -> (out: String)
    ensures
        out@ == println_text(text@),
{
    let s = chars_of(text);
    let once = crate::text::undouble_chars(&s, '{');
    let twice = crate::text::undouble_chars(&once, '}');
    string_of(&twice)
}

/// What is printed when no help text can be read.
pub open spec fn fallback_help() -> Seq<char> {
    "agent-browser - fast browser automation CLI for AI agents"@
}

/// The full help text: the first raw string after `pub fn print_help()` in
/// the help source, read back.
pub open spec fn full_help(source: Seq<char>) -> Seq<char> {
    match crate::text::first_occurrence(source, "pub fn print_help()"@) {
        None => fallback_help(),
        Some(start) => match raw_string(source.skip(start)) {
            Some(t) => println_text(t),
            None => fallback_help(),
        },
    }
}

/// The help of one command: the first raw string after the quoted command
/// name that follows `pub fn print_command_help` in the help source,
/// trimmed and read back.
pub open spec fn command_help(source: Seq<char>, command: Seq<char>) -> Option<Seq<char>> {
    match crate::text::first_occurrence(source, "pub fn print_command_help"@) {
        None => None,
        Some(start) => {
            let body = source.skip(start);
            match crate::text::first_occurrence(body, seq!['"'] + command + seq!['"']) {
                None => None,
                Some(ci) => match raw_string(body.skip(ci)) {
                    Some(t) => Some(println_text(crate::text::trim(t))),
                    None => None,
                },
            }
        },
    }
}

/// The full help text, read from the source that prints it.
pub fn full_help_text(source: &str) -> (out: String)
    ensures
        out@ == full_help(source@),
{
    let s = chars_of(source);
    let marker = chars_of("pub fn print_help()");
    match crate::text::skip_to(&s, &marker) {
        None => String::from_str("agent-browser - fast browser automation CLI for AI agents"),
        Some(rest) => {
            let rest_string = string_of(&rest);
            match extract_raw_string(rest_string.as_str()) {
                Some(t) => decode_println_format(t.as_str()),
                None => String::from_str(
                    "agent-browser - fast browser automation CLI for AI agents",
                ),
            }
        },
    }
}

fn quoted_name(command: &str) -> (needle: Vec<char>)
    ensures
        needle@ == seq!['"'] + command@ + seq!['"'],
{
    let mut needle: Vec<char> = Vec::new();
    needle.push('"');
    push_str(&mut needle, command);
    needle.push('"');
    assert(needle@ =~= seq!['"'] + command@ + seq!['"']);
    needle
}

fn help_body(t: &str) -> (out: String)
    ensures
        out@ == println_text(crate::text::trim(t@)),
{
    let tc = chars_of(t);
    let trimmed = crate::text::trim_chars(&tc);
    let trimmed_string = string_of(&trimmed);
    decode_println_format(trimmed_string.as_str())
}

/// The help of one command, read from the source that prints it.
pub fn command_help_text(source: &str, command: &str) -> (out: Option<String>)
    ensures
        match out {
            Some(t) => command_help(source@, command@) == Some(t@),
            None => command_help(source@, command@) is None,
        },
{
    let s = chars_of(source);
    let marker = chars_of("pub fn print_command_help");
    let body = match crate::text::skip_to(&s, &marker) {
        Some(body) => body,
        None => {
            return None;
        },
    };
    let needle = quoted_name(command);
    let rest = match crate::text::skip_to(&body, &needle) {
        Some(rest) => rest,
        None => {
            return None;
        },
    };
    let rest_string = string_of(&rest);
    match extract_raw_string(rest_string.as_str()) {
        Some(t) => Some(help_body(t.as_str())),
        None => None,
    }
}

} // verus!

verus! {

// ---------------------------------------------------------------------------
// Replies of the page's JavaScript

/// The value an evaluation produced, or the description of its exception.
/// A reply without a `result` member is read as the remote object itself;
/// its `value` comes first, then an unserializable value or a description
/// (as strings); otherwise null.
pub open spec fn result_value(response: JsonValue) -> Result<JsonValue, Seq<char>> {
    match json_get(response, "exceptionDetails"@) {
        Some(details) => {
            let text = match member_str(details, "text"@) {
                Some(t) => t,
                None => "JavaScript exception"@,
            };
            Err(
                match json_get(details, "exception"@) {
                    Some(e) => match member_str(e, "description"@) {
                        Some(d) => d,
                        None => text,
                    },
                    None => text,
                },
            )
        },
        None => {
            let remote = match json_get(response, "result"@) {
                Some(r) => r,
                None => response,
            };
            match json_get(remote, "value"@) {
                Some(v) => Ok(v),
                None => match json_get(remote, "unserializableValue"@) {
                    Some(JsonValue::Str(u)) => Ok(JsonValue::Str(u)),
                    _ => match json_get(remote, "description"@) {
                        Some(JsonValue::Str(d)) => Ok(JsonValue::Str(d)),
                        _ => Ok(JsonValue::Null),
                    },
                },
            }
        },
    }
}

fn exception_description(details: &JsonValue) -> (out: String)
    ensures
        ({
            let text = match member_str(*details, "text"@) {
                Some(t) => t,
                None => "JavaScript exception"@,
            };
            out@ == match json_get(*details, "exception"@) {
                Some(e) => match member_str(e, "description"@) {
                    Some(d) => d,
                    None => text,
                },
                None => text,
            }
        }),
{
    let text = match details.member_str("text") {
        Some(t) => t,
        None => "JavaScript exception",
    };
    let description = match details.get("exception") {
        Some(e) => match e.member_str("description") {
            Some(d) => d,
            None => text,
        },
        None => text,
    };
    String::from_str(description)
}

/// The value that a `Runtime.evaluate` or `Runtime.callFunctionOn` reply holds.
pub fn runtime_result_value(response: JsonValue) -> (r: Result<JsonValue, String>)
    ensures
        match r {
            Ok(v) => result_value(response) == Ok::<JsonValue, Seq<char>>(v),
            Err(e) => result_value(response) == Err::<JsonValue, Seq<char>>(e@),
        },
{
    match response.get("exceptionDetails") {
        Some(details) => {
            return Err(exception_description(details));
        },
        None => {},
    }
    let remote = if response.get("result").is_some() {
        match crate::json::take_member(response, "result") {
            Some(r) => r,
            None => JsonValue::Null,
        }
    } else {
        response
    };
    if remote.get("value").is_some() {
        return match crate::json::take_member(remote, "value") {
            Some(v) => Ok(v),
            None => Ok(JsonValue::Null),
        };
    }
    let unserializable = match remote.get("unserializableValue") {
        Some(JsonValue::Str(_)) => true,
        _ => false,
    };
    if unserializable {
        return match crate::json::take_member(remote, "unserializableValue") {
            Some(v) => Ok(v),
            None => Ok(JsonValue::Null),
        };
    }
    let described = match remote.get("description") {
        Some(JsonValue::Str(_)) => true,
        _ => false,
    };
    if described {
        return match crate::json::take_member(remote, "description") {
            Some(v) => Ok(v),
            None => Ok(JsonValue::Null),
        };
    }
    Ok(JsonValue::Null)
}

// ---------------------------------------------------------------------------
// Responses

/// The reply to one command.
#[derive(Debug)]
pub struct Response {
    pub success: bool,
    pub data: Option<JsonValue>,
    pub error: Option<String>,
    pub warning: Option<String>,
}

/// A failed reply with `error`.
pub fn response_error(error: String) -> (r: Response)
    ensures
        !r.success,
        r.data is None,
        r.error == Some(error),
        r.warning is None,
{
    Response { success: false, data: None, error: Some(error), warning: None }
}

/// The reply for what an action produced: its data, or its error.
pub fn action_response(result: Result<JsonValue, String>) -> (r: Response)
    ensures
        r.warning is None,
        match result {
            Ok(data) => r.success && r.data == Some(data) && r.error is None,
            Err(e) => !r.success && r.data is None && r.error == Some(e),
        },
{
    match result {
        Ok(data) => Response { success: true, data: Some(data), error: None, warning: None },
        Err(error) => response_error(error),
    }
}

/// The `action` of a command, or empty.
pub open spec fn action_name(command: JsonValue) -> Seq<char> {
    match member_str(command, "action"@) {
        Some(a) => a,
        None => Seq::empty(),
    }
}

/// The `action` of a command, or empty.
pub fn action(command: &JsonValue) -> (r: &str)
    ensures
        r@ == action_name(*command),
{
    match command.member_str("action") {
        Some(a) => a,
        None => {
            proof {
                reveal_strlit("");
            }
            ""
        },
    }
}

/// A string member that must be there and not be empty.
pub open spec fn required_member(command: JsonValue, key: Seq<char>) -> Result<Seq<char>, Seq<char>> {
    match member_str(command, key) {
        Some(v) => if v.len() > 0 {
            Ok(v)
        } else {
            Err(key + " is required"@)
        },
        None => Err(key + " is required"@),
    }
}

/// A string member that must be there and not be empty.
pub fn required_string<'a>(command: &'a JsonValue, key: &str) -> (r: Result<&'a str, String>)
    ensures
        match r {
            Ok(v) => required_member(*command, key@) == Ok::<Seq<char>, Seq<char>>(v@),
            Err(e) => required_member(*command, key@) == Err::<Seq<char>, Seq<char>>(e@),
        },
{
    match command.member_str(key) {
        Some(v) => {
            if !v.is_empty() {
                return Ok(v);
            }
        },
        None => {},
    }
    let mut m: Vec<char> = Vec::new();
    push_str(&mut m, key);
    push_str(&mut m, " is required");
    Err(string_of(&m))
}

} // verus!

verus! {

// ---------------------------------------------------------------------------
// Printing a reply

/// How a reply is printed. Printing JSON, pretty-printing and decorating
/// with the terminal's colors are left to the caller.
#[derive(Debug)]
pub enum ResponseFormat {
    /// A successful run that prints this text.
    Print(String),
    /// A failed run that reports this error after the error mark.
    Failure(String),
    /// A page was reached: the success mark, the title in bold, the URL dimmed.
    Navigated(String, String),
    /// The whole reply as compact JSON.
    ResponseJson,
    /// The `x`, `y`, `width` and `height` of the data, one per line.
    BoundingBox,
    /// One `key: value` line per style; a value that is not a string is
    /// printed as compact JSON.
    Styles(Vec<(String, Option<String>)>),
    /// The `result` of the data pretty-printed, as page content with this origin.
    PrettyResult(Option<String>),
    /// The data pretty-printed.
    PrettyData,
}

/// How a reply is printed, as plain values.
pub enum FormatModel {
    Print(Seq<char>),
    Failure(Seq<char>),
    Navigated(Seq<char>, Seq<char>),
    ResponseJson,
    BoundingBox,
    Styles(Seq<(Seq<char>, Option<Seq<char>>)>),
    PrettyResult(Option<Seq<char>>),
    PrettyData,
}

/// A style entry as plain values.
pub open spec fn style_view(e: (String, Option<String>)) -> (Seq<char>, Option<Seq<char>>) {
    (
        e.0@,
        match e.1 {
            Some(t) => Some(t@),
            None => None,
        },
    )
}

/// A style of an object as plain values.
pub open spec fn style_entry(e: (String, JsonValue)) -> (Seq<char>, Option<Seq<char>>) {
    (e.0@, json_str(e.1))
}

impl ResponseFormat {
    /// As plain values.
    pub open spec fn model(&self) -> FormatModel {
        match self {
            ResponseFormat::Print(t) => FormatModel::Print(t@),
            ResponseFormat::Failure(t) => FormatModel::Failure(t@),
            ResponseFormat::Navigated(t, u) => FormatModel::Navigated(t@, u@),
            ResponseFormat::ResponseJson => FormatModel::ResponseJson,
            ResponseFormat::BoundingBox => FormatModel::BoundingBox,
            ResponseFormat::Styles(v) => FormatModel::Styles(
                v@.map_values(|e: (String, Option<String>)| style_view(e)),
            ),
            ResponseFormat::PrettyResult(o) => FormatModel::PrettyResult(
                match o {
                    Some(t) => Some(t@),
                    None => None,
                },
            ),
            ResponseFormat::PrettyData => FormatModel::PrettyData,
        }
    }
}

/// The styles of the data, if it has a `styles` object.
pub open spec fn styles_of(d: JsonValue) -> Option<Seq<(Seq<char>, Option<Seq<char>>)>> {
    match json_get(d, "styles"@) {
        Some(JsonValue::Object(entries)) => Some(
            entries@.map_values(|e: (String, JsonValue)| style_entry(e)),
        ),
        _ => None,
    }
}

/// How the data of a successful reply is printed: the first member that
/// applies, in this order: `url` (with `title`, as a reached page),
/// `cdpUrl`, `snapshot`, `title`, `text`, `html`, `value`, `count`, a
/// bounding box, `styles`, `visible`/`enabled`/`checked`, `result`; an empty
/// object prints nothing; anything else is pretty-printed.
pub open spec fn data_format(d: JsonValue, action: Option<Seq<char>>, options: OutputOptions) -> FormatModel {
    let origin = member_str(d, "origin"@);
    if member_str(d, "url"@) is Some {
        match member_str(d, "title"@) {
            Some(title) => FormatModel::Navigated(title, member_str(d, "url"@)->0),
            None => FormatModel::Print(member_str(d, "url"@)->0),
        }
    } else if member_str(d, "cdpUrl"@) is Some {
        FormatModel::Print(member_str(d, "cdpUrl"@)->0)
    } else if member_str(d, "snapshot"@) is Some {
        FormatModel::Print(page_text(member_str(d, "snapshot"@)->0, origin, options))
    } else if member_str(d, "title"@) is Some {
        FormatModel::Print(member_str(d, "title"@)->0)
    } else if member_str(d, "text"@) is Some {
        FormatModel::Print(page_text(member_str(d, "text"@)->0, origin, options))
    } else if member_str(d, "html"@) is Some {
        FormatModel::Print(page_text(member_str(d, "html"@)->0, origin, options))
    } else if member_str(d, "value"@) is Some {
        FormatModel::Print(member_str(d, "value"@)->0)
    } else if crate::json::member_i64(d, "count"@) is Some {
        FormatModel::Print(crate::text::signed_decimal(crate::json::member_i64(d, "count"@)->0 as int))
    } else if action == Some("boundingbox"@) {
        FormatModel::BoundingBox
    } else if styles_of(d) is Some {
        FormatModel::Styles(styles_of(d)->0)
    } else if crate::json::member_bool(d, "visible"@) is Some {
        FormatModel::Print(crate::snapshot_format::bool_text(crate::json::member_bool(d, "visible"@)->0))
    } else if crate::json::member_bool(d, "enabled"@) is Some {
        FormatModel::Print(crate::snapshot_format::bool_text(crate::json::member_bool(d, "enabled"@)->0))
    } else if crate::json::member_bool(d, "checked"@) is Some {
        FormatModel::Print(crate::snapshot_format::bool_text(crate::json::member_bool(d, "checked"@)->0))
    } else if json_get(d, "result"@) is Some {
        FormatModel::PrettyResult(origin)
    } else if d matches JsonValue::Object(entries) && entries@.len() == 0 {
        FormatModel::Print(Seq::empty())
    } else {
        FormatModel::PrettyData
    }
}

/// How a reply is printed: as JSON when asked; a failure with its error
/// (or `Unknown error`); nothing without data; otherwise by its data.
pub open spec fn response_format(response: Response, action: Option<Seq<char>>, options: OutputOptions) -> FormatModel {
    if options.json {
        FormatModel::ResponseJson
    } else if !response.success {
        FormatModel::Failure(
            match response.error {
                Some(e) => e@,
                None => "Unknown error"@,
            },
        )
    } else {
        match response.data {
            None => FormatModel::Print(Seq::empty()),
            Some(d) => data_format(d, action, options),
        }
    }
}

fn opt_string(o: Option<&str>) -> (r: Option<String>)
    ensures
        match r {
            Some(t) => o matches Some(s) && t@ == s@,
            None => o is None,
        },
{
    match o {
        Some(s) => Some(String::from_str(s)),
        None => None,
    }
}

fn bool_word(b: bool) -> (out: String)
    ensures
        out@ == crate::snapshot_format::bool_text(b),
{
    if b {
        String::from_str("true")
    } else {
        String::from_str("false")
    }
}

fn style_entries(entries: &Vec<(String, JsonValue)>) -> (out: Vec<(String, Option<String>)>)
    ensures
        out@.map_values(|e: (String, Option<String>)| style_view(e)) == entries@.map_values(
            |e: (String, JsonValue)| style_entry(e),
        ),
{
    let mut out: Vec<(String, Option<String>)> = Vec::new();
    let mut i: usize = 0;
    while i < entries.len()
        invariant
            i <= entries@.len(),
            out@.map_values(|e: (String, Option<String>)| style_view(e)) == entries@.take(
                i as int,
            ).map_values(|e: (String, JsonValue)| style_entry(e)),
        decreases entries@.len() - i,
    {
        let key = entries[i].0.clone();
        let value = opt_string(entries[i].1.as_str());
        assert(style_view((key, value)) == style_entry(entries@[i as int]));
        let ghost before = out@;
        out.push((key, value));
        assert(out@.map_values(|e: (String, Option<String>)| style_view(e)) =~= before.map_values(
            |e: (String, Option<String>)| style_view(e),
        ).push(style_entry(entries@[i as int])));
        assert(entries@.take(i + 1) =~= entries@.take(i as int).push(entries@[i as int]));
        i = i + 1;
        assert(out@.map_values(|e: (String, Option<String>)| style_view(e)) =~= entries@.take(
            i as int,
        ).map_values(|e: (String, JsonValue)| style_entry(e)));
    }
    assert(entries@.take(entries@.len() as int) =~= entries@);
    out
}

/// How the data of a successful reply is printed.
#[verifier::rlimit(60)]
fn data_format_exec(d: &JsonValue, action: Option<&str>, options: &OutputOptions) -> (r: ResponseFormat)
    ensures
        r.model() == data_format(
            *d,
            match action {
                Some(a) => Some(a@),
                None => None,
            },
            *options,
        ),
{
    let origin = d.member_str("origin");
    if let Some(url) = d.member_str("url") {
        return match d.member_str("title") {
            Some(title) => ResponseFormat::Navigated(String::from_str(title), String::from_str(url)),
            None => ResponseFormat::Print(String::from_str(url)),
        };
    }
    if let Some(cdp_url) = d.member_str("cdpUrl") {
        return ResponseFormat::Print(String::from_str(cdp_url));
    }
    if let Some(snapshot) = d.member_str("snapshot") {
        return ResponseFormat::Print(page_content(snapshot, origin, options));
    }
    if let Some(title) = d.member_str("title") {
        return ResponseFormat::Print(String::from_str(title));
    }
    if let Some(text) = d.member_str("text") {
        return ResponseFormat::Print(page_content(text, origin, options));
    }
    if let Some(html) = d.member_str("html") {
        return ResponseFormat::Print(page_content(html, origin, options));
    }
    if let Some(value) = d.member_str("value") {
        return ResponseFormat::Print(String::from_str(value));
    }
    if let Some(count) = d.member_i64("count") {
        let mut out: Vec<char> = Vec::new();
        crate::text::push_signed_decimal(&mut out, count);
        return ResponseFormat::Print(string_of(&out));
    }
    let is_box = match action {
        Some(a) => {
            let ac = chars_of(a);
            is_text(&ac, "boundingbox")
        },
        None => false,
    };
    if is_box {
        return ResponseFormat::BoundingBox;
    }
    if let Some(JsonValue::Object(entries)) = d.get("styles") {
        return ResponseFormat::Styles(style_entries(entries));
    }
    if let Some(b) = d.member_bool("visible") {
        return ResponseFormat::Print(bool_word(b));
    }
    if let Some(b) = d.member_bool("enabled") {
        return ResponseFormat::Print(bool_word(b));
    }
    if let Some(b) = d.member_bool("checked") {
        return ResponseFormat::Print(bool_word(b));
    }
    if d.get("result").is_some() {
        return ResponseFormat::PrettyResult(opt_string(origin));
    }
    if d.is_empty_object() {
        return ResponseFormat::Print(String::new());
    }
    ResponseFormat::PrettyData
}

/// How a reply is printed.
pub fn format_response(response: &Response, action: Option<&str>, options: &OutputOptions) -> (r: ResponseFormat)
    ensures
        r.model() == response_format(
            *response,
            match action {
                Some(a) => Some(a@),
                None => None,
            },
            *options,
        ),
{
    if options.json {
        return ResponseFormat::ResponseJson;
    }
    if !response.success {
        return ResponseFormat::Failure(
            match &response.error {
                Some(e) => e.clone(),
                None => String::from_str("Unknown error"),
            },
        );
    }
    match &response.data {
        None => ResponseFormat::Print(String::new()),
        Some(d) => data_format_exec(d, action, options),
    }
}

/// Style lines, `key: value`, one per line.
pub open spec fn style_text(lines: Seq<(Seq<char>, Seq<char>)>) -> Seq<char> {
    crate::text::join(lines.map_values(|l: (Seq<char>, Seq<char>)| l.0 + ": "@ + l.1), seq!['\n'])
}

/// Joins style lines, `key: value`, one per line.
pub fn style_lines(lines: &Vec<(String, String)>) -> (out: String)
    ensures
        out@ == style_text(lines@.map_values(|l: (String, String)| (l.0@, l.1@))),
{
    let ghost views = lines@.map_values(|l: (String, String)| (l.0@, l.1@));
    let ghost pieces = views.map_values(|l: (Seq<char>, Seq<char>)| l.0 + ": "@ + l.1);
    let mut out: Vec<char> = Vec::new();
    let mut i: usize = 0;
    while i < lines.len()
        invariant
            i <= lines@.len(),
            views == lines@.map_values(|l: (String, String)| (l.0@, l.1@)),
            pieces == views.map_values(|l: (Seq<char>, Seq<char>)| l.0 + ": "@ + l.1),
            out@ == crate::text::join(pieces.take(i as int), seq!['\n']),
        decreases lines@.len() - i,
    {
        assert(pieces.take(i + 1).drop_last() =~= pieces.take(i as int));
        if i > 0 {
            out.push('\n');
        } else {
            assert(pieces.take(0) =~= Seq::<Seq<char>>::empty());
        }
        push_str(&mut out, lines[i].0.as_str());
        push_str(&mut out, ": ");
        push_str(&mut out, lines[i].1.as_str());
        i = i + 1;
        assert(out@ =~= crate::text::join(pieces.take(i as int), seq!['\n']));
    }
    assert(pieces.take(lines@.len() as int) =~= pieces);
    string_of(&out)
}

} // verus!

verus! {

// ---------------------------------------------------------------------------
// Running a command line

/// A run's output as plain values: stdout, stderr, exit code, clear.
pub open spec fn output_view(o: RunOutput) -> (Seq<char>, Seq<char>, i32, bool) {
    (o.stdout@, o.stderr@, o.exit_code, o.clear)
}

/// A successful run that prints `t`.
pub open spec fn printed(t: Seq<char>) -> (Seq<char>, Seq<char>, i32, bool) {
    (t, Seq::empty(), 0, false)
}

/// A failed run that reports `t`.
pub open spec fn failed(t: Seq<char>) -> (Seq<char>, Seq<char>, i32, bool) {
    (Seq::empty(), t, 1, false)
}

/// What comes of one step of reading a command line.
#[derive(Debug)]
pub enum LineStep {
    /// The run is over with this output.
    Done(RunOutput),
    /// These words are to be split like a shell does.
    Split(String),
    /// These arguments are to be run.
    Run(Vec<String>),
}

/// A step as plain values.
pub enum LineModel {
    Done((Seq<char>, Seq<char>, i32, bool)),
    Split(Seq<char>),
    Run(Seq<Seq<char>>),
}

impl LineStep {
    /// As plain values.
    pub open spec fn model(&self) -> LineModel {
        match self {
            LineStep::Done(o) => LineModel::Done(output_view(*o)),
            LineStep::Split(t) => LineModel::Split(t@),
            LineStep::Run(args) => LineModel::Run(args@.map_values(|a: String| a@)),
        }
    }
}

/// A command line: empty prints nothing; otherwise it is split.
pub open spec fn line_input(input: Seq<char>) -> LineModel {
    let t = crate::text::trim(input);
    if t.len() == 0 {
        LineModel::Done(printed(Seq::empty()))
    } else {
        LineModel::Split(t)
    }
}

/// The words of a command line: `clear` clears, `agent-browser` runs the
/// rest, any other command is not found.
pub open spec fn line_words(parts: Seq<Seq<char>>) -> LineModel {
    if parts.len() == 0 {
        LineModel::Done(printed(Seq::empty()))
    } else if parts[0] == "clear"@ {
        LineModel::Done((Seq::empty(), Seq::empty(), 0, true))
    } else if parts[0] == "agent-browser"@ {
        LineModel::Run(parts.drop_first())
    } else {
        LineModel::Done(failed("bash: command not found: "@ + parts[0]))
    }
}

/// An agent command: empty prints the full help; otherwise it is split.
pub open spec fn command_input_step(input: Seq<char>, help_source: Seq<char>) -> LineModel {
    let t = crate::text::trim(input);
    if t.len() == 0 {
        LineModel::Done(printed(full_help(help_source)))
    } else {
        LineModel::Split(t)
    }
}

fn trimmed_string(input: &str) -> (out: String)
    ensures
        out@ == crate::text::trim(input@),
{
    let chars = chars_of(input);
    let t = crate::text::trim_chars(&chars);
    string_of(&t)
}

/// Reads a command line typed into the terminal.
pub fn command_line_input(input: &str) -> (r: LineStep)
    ensures
        r.model() == line_input(input@),
{
    let t = trimmed_string(input);
    if t.as_str().is_empty() {
        LineStep::Done(RunOutput::success(String::new()))
    } else {
        LineStep::Split(t)
    }
}

/// Reads the words of a command line typed into the terminal.
pub fn command_line_words(parts: Vec<String>) -> (r: LineStep)
    ensures
        r.model() == line_words(parts@.map_values(|a: String| a@)),
{
    let ghost views = parts@.map_values(|a: String| a@);
    if parts.len() == 0 {
        return LineStep::Done(RunOutput::success(String::new()));
    }
    let first = chars_of(parts[0].as_str());
    assert(views[0] == parts@[0]@);
    if is_text(&first, "clear") {
        return LineStep::Done(RunOutput::clear());
    }
    if is_text(&first, "agent-browser") {
        let mut rest: Vec<String> = Vec::new();
        let mut i: usize = 1;
        while i < parts.len()
            invariant
                1 <= i <= parts@.len(),
                views == parts@.map_values(|a: String| a@),
                rest@.map_values(|a: String| a@) == views.subrange(1, i as int),
            decreases parts@.len() - i,
        {
            let ghost before = rest@;
            assert(views[i as int] == parts@[i as int]@);
            rest.push(parts[i].clone());
            assert(rest@.map_values(|a: String| a@) =~= before.map_values(|a: String| a@).push(
                views[i as int],
            ));
            assert(views.subrange(1, i + 1) =~= views.subrange(1, i as int).push(views[i as int]));
            assert(rest@.map_values(|a: String| a@) =~= views.subrange(1, i + 1));
            i = i + 1;
        }
        assert(views.subrange(1, views.len() as int) =~= views.drop_first());
        return LineStep::Run(rest);
    }
    let mut m: Vec<char> = Vec::new();
    push_str(&mut m, "bash: command not found: ");
    push_all(&mut m, &first);
    LineStep::Done(RunOutput::error(string_of(&m)))
}

/// Reads an agent command given without the binary name.
pub fn command_input(input: &str, help_source: &str) -> (r: LineStep)
    ensures
        r.model() == command_input_step(input@, help_source@),
{
    let t = trimmed_string(input);
    if t.as_str().is_empty() {
        LineStep::Done(RunOutput::success(full_help_text(help_source)))
    } else {
        LineStep::Split(t)
    }
}

/// What `serde_json::from_str::<Vec<String>>` makes of `text`: the strings
/// of a JSON array of strings, or the text of the error it reports.
pub uninterp spec fn argv_json(text: Seq<char>) -> Result<Seq<Seq<char>>, Seq<char>>;

/// Decodes a JSON array of strings with `serde_json::from_str::<Vec<String>>`.
/// The contract claims only that the result, or the `Display` text of the
/// error, is what that call gives for this text: a function of the text.
#[verifier::external_body]
fn decode_argv_json(text: &str) -> (r: Result<Vec<String>, String>)
    ensures
        match r {
            Ok(v) => argv_json(text@) == Ok::<Seq<Seq<char>>, Seq<char>>(
                v@.map_values(|s: String| s@),
            ),
            Err(e) => argv_json(text@) == Err::<Seq<Seq<char>>, Seq<char>>(e@),
        },
{
    match serde_json::from_str::<Vec<String>>(text) {
        Ok(v) => Ok(v),
        Err(e) => Err(e.to_string()),
    }
}

/// The strings of a list, as plain values.
pub open spec fn strings_view(v: Seq<String>) -> Seq<Seq<char>> {
    v.map_values(|s: String| s@)
}

/// The arguments decoded from argv JSON, or the failed run that reports why
/// they could not be decoded.
pub fn argv_step(decoded: Result<Vec<String>, String>) -> (r: Result<Vec<String>, RunOutput>)
    ensures
        match decoded {
            Ok(v) => r matches Ok(w) && w@ == v@,
            Err(e) => r matches Err(o) && output_view(o) == failed("Invalid argv JSON: "@ + e@),
        },
{
    match decoded {
        Ok(v) => Ok(v),
        Err(e) => {
            let mut m: Vec<char> = Vec::new();
            push_str(&mut m, "Invalid argv JSON: ");
            push_str(&mut m, e.as_str());
            Err(RunOutput::error(string_of(&m)))
        },
    }
}

/// Reads the arguments of a command given as a JSON array of strings: the
/// arguments when the text decodes, otherwise a failed run that gives the
/// decoder's error after `Invalid argv JSON: `.
pub fn argv_input(text: &str) -> (r: Result<Vec<String>, RunOutput>)
    ensures
        match argv_json(text@) {
            Ok(a) => r matches Ok(v) && strings_view(v@) == a,
            Err(e) => r matches Err(o) && output_view(o) == failed("Invalid argv JSON: "@ + e),
        },
{
    let decoded = decode_argv_json(text);
    argv_step(decoded)
}

/// Some argument is `a` or `b`.
pub open spec fn has_arg(args: Seq<String>, a: Seq<char>, b: Seq<char>) -> bool {
    exists|i: int| 0 <= i < args.len() && (#[trigger] args[i]@ == a || args[i]@ == b)
}

/// What an agent command prints before its command is parsed, if it stops
/// there: help (`--help`, `-h`), the version (`--version`, `-V`), the full
/// help for no command, or a command that the browser build lacks.
pub open spec fn preflight(
    args: Seq<String>,
    clean: Seq<String>,
    help_source: Seq<char>,
    version: Seq<char>,
) -> Option<(Seq<char>, Seq<char>, i32, bool)> {
    if has_arg(args, "--help"@, "-h"@) {
        Some(
            printed(
                if clean.len() > 0 && command_help(help_source, clean[0]@) is Some {
                    command_help(help_source, clean[0]@)->0
                } else {
                    full_help(help_source)
                },
            ),
        )
    } else if has_arg(args, "--version"@, "-V"@) {
        Some(printed("agent-browser "@ + version))
    } else if clean.len() == 0 {
        Some(printed(full_help(help_source)))
    } else {
        match unavailable_message(clean) {
            Some(m) => Some(failed(m)),
            None => None,
        }
    }
}

fn any_arg(args: &[String], a: &str, b: &str) -> (r: bool)
    ensures
        r == has_arg(args@, a@, b@),
{
    let mut i: usize = 0;
    while i < args.len()
        invariant
            i <= args@.len(),
            forall|j: int| 0 <= j < i ==> !(#[trigger] args@[j]@ == a@ || args@[j]@ == b@),
        decreases args@.len() - i,
    {
        let x = chars_of(args[i].as_str());
        if is_text(&x, a) || is_text(&x, b) {
            return true;
        }
        i = i + 1;
    }
    false
}

/// What an agent command prints before its command is parsed, if it
/// stops there. `args` are all arguments, `clean` those that are not
/// global flags; `help_source` is the source that prints the help.
pub fn agent_preflight(args: &[String], clean: &[String], help_source: &str, version: &str) -> (r:
    Option<RunOutput>)
    ensures
        match r {
            Some(o) => preflight(args@, clean@, help_source@, version@) == Some(output_view(o)),
            None => preflight(args@, clean@, help_source@, version@) is None,
        },
{
    if any_arg(args, "--help", "-h") {
        let text = if clean.len() > 0 {
            match command_help_text(help_source, clean[0].as_str()) {
                Some(t) => t,
                None => full_help_text(help_source),
            }
        } else {
            full_help_text(help_source)
        };
        return Some(RunOutput::success(text));
    }
    if any_arg(args, "--version", "-V") {
        let mut m: Vec<char> = Vec::new();
        push_str(&mut m, "agent-browser ");
        push_str(&mut m, version);
        return Some(RunOutput::success(string_of(&m)));
    }
    if clean.len() == 0 {
        return Some(RunOutput::success(full_help_text(help_source)));
    }
    match unavailable_top_level_command(clean) {
        Some(m) => Some(RunOutput::error(m)),
        None => None,
    }
}

} // verus!

verus! {

/// The input modes of the mouse.
pub open spec fn valid_input_mode(m: Seq<char>) -> bool {
    m == "instant"@ || m == "smooth"@ || m == "human"@
}

/// `out` is the command `c` as it is run: `c` itself when it has an
/// `inputMode`; otherwise `c` with an `inputMode` member holding `mode`
/// added after its members (a null becomes an object with just that member).
pub open spec fn readied(c: JsonValue, mode: Seq<char>, out: JsonValue) -> bool {
    if json_get(c, "inputMode"@) is Some {
        out == c
    } else {
        let before = match c {
            JsonValue::Object(entries) => entries@,
            _ => Seq::empty(),
        };
        match out {
            JsonValue::Object(after) => after@.len() == before.len() + 1 && after@.take(
                before.len() as int,
            ) == before && after@.last().0@ == "inputMode"@ && match after@.last().1 {
                JsonValue::Str(m) => m@ == mode,
                _ => false,
            },
            _ => false,
        }
    }
}

/// Makes a parsed command ready to run and reads its action; or gives the
/// output that ends the run: the parse error, or an unknown input mode.
pub fn prepare_command(parsed: Result<JsonValue, String>, flags: &WasmFlags) -> (r: Result<
    (JsonValue, Option<String>),
    RunOutput,
>)
    requires
        match parsed {
            Ok(c) => valid_input_mode(flags.input_mode@) && json_get(c, "inputMode"@) is None ==> (c is Object
                || c is Null),
            Err(_) => true,
        },
    ensures
        match parsed {
            Err(e) => (r matches Err(o) && output_view(o) == failed(e@)),
            Ok(c) => if !valid_input_mode(flags.input_mode@) {
                (r matches Err(o) && output_view(o) == failed(
                    "--input-mode must be instant, smooth, or human"@,
                ))
            } else {
                (r matches Ok((command, act)) && readied(c, flags.input_mode@, command) && match act {
                    Some(a) => member_str(command, "action"@) == Some(a@),
                    None => member_str(command, "action"@) is None,
                })
            },
        },
{
    let command = match parsed {
        Err(e) => {
            return Err(RunOutput::error(e));
        },
        Ok(c) => c,
    };
    let mode = chars_of(flags.input_mode.as_str());
    if !(is_text(&mode, "instant") || is_text(&mode, "smooth") || is_text(&mode, "human")) {
        return Err(
            RunOutput::error(String::from_str("--input-mode must be instant, smooth, or human")),
        );
    }
    let command = if command.get("inputMode").is_none() {
        let entry = (String::from_str("inputMode"), JsonValue::Str(flags.input_mode.clone()));
        match command {
            JsonValue::Object(mut entries) => {
                let ghost before = entries@;
                entries.push(entry);
                assert(entries@.take(before.len() as int) =~= before);
                JsonValue::Object(entries)
            },
            _ => {
                let mut entries: Vec<(String, JsonValue)> = Vec::new();
                entries.push(entry);
                assert(entries@.take(0) =~= Seq::<(String, JsonValue)>::empty());
                JsonValue::Object(entries)
            },
        }
    } else {
        command
    };
    let act = match command.member_str("action") {
        Some(a) => Some(String::from_str(a)),
        None => None,
    };
    Ok((command, act))
}

// ---------------------------------------------------------------------------
// Actions

/// What a parsed command asks of the page.
#[derive(Debug)]
pub enum ActionKind {
    Launch,
    Navigate,
    Url,
    CdpUrl,
    Title,
    Content,
    Evaluate,
    Snapshot,
    /// A click with this many presses.
    Click(i64),
    Fill,
    Type,
    Press,
    Keyboard,
    Hover,
    MouseMove,
    /// A mouse button pressed (true) or released (false).
    MouseButton(bool),
    Wheel,
    Drag,
    Focus,
    Scroll,
    ScrollIntoView,
    Select,
    /// A box checked (true) or unchecked (false).
    Check(bool),
    Wait,
    WaitForUrl,
    WaitForLoadState,
    WaitForFunction,
    GetText,
    InnerHtml,
    InputValue,
    GetAttribute,
    Count,
    BoundingBox,
    Styles,
    IsVisible,
    IsEnabled,
    IsChecked,
    /// An action the browser build does not have.
    Unsupported,
}

/// The kind of an action name.
pub open spec fn action_kind_spec(a: Seq<char>) -> ActionKind {
    if a == "launch"@ {
        ActionKind::Launch
    } else if a == "navigate"@ {
        ActionKind::Navigate
    } else if a == "url"@ {
        ActionKind::Url
    } else if a == "cdp_url"@ {
        ActionKind::CdpUrl
    } else if a == "title"@ {
        ActionKind::Title
    } else if a == "content"@ {
        ActionKind::Content
    } else if a == "evaluate"@ {
        ActionKind::Evaluate
    } else if a == "snapshot"@ {
        ActionKind::Snapshot
    } else if a == "click"@ {
        ActionKind::Click(1)
    } else if a == "dblclick"@ {
        ActionKind::Click(2)
    } else if a == "fill"@ {
        ActionKind::Fill
    } else if a == "type"@ {
        ActionKind::Type
    } else if a == "press"@ {
        ActionKind::Press
    } else if a == "keyboard"@ {
        ActionKind::Keyboard
    } else if a == "hover"@ {
        ActionKind::Hover
    } else if a == "mousemove"@ {
        ActionKind::MouseMove
    } else if a == "mousedown"@ {
        ActionKind::MouseButton(true)
    } else if a == "mouseup"@ {
        ActionKind::MouseButton(false)
    } else if a == "wheel"@ {
        ActionKind::Wheel
    } else if a == "drag"@ {
        ActionKind::Drag
    } else if a == "focus"@ {
        ActionKind::Focus
    } else if a == "scroll"@ {
        ActionKind::Scroll
    } else if a == "scrollintoview"@ {
        ActionKind::ScrollIntoView
    } else if a == "select"@ {
        ActionKind::Select
    } else if a == "check"@ {
        ActionKind::Check(true)
    } else if a == "uncheck"@ {
        ActionKind::Check(false)
    } else if a == "wait"@ {
        ActionKind::Wait
    } else if a == "waitforurl"@ {
        ActionKind::WaitForUrl
    } else if a == "waitforloadstate"@ {
        ActionKind::WaitForLoadState
    } else if a == "waitforfunction"@ {
        ActionKind::WaitForFunction
    } else if a == "gettext"@ {
        ActionKind::GetText
    } else if a == "innerhtml"@ {
        ActionKind::InnerHtml
    } else if a == "inputvalue"@ {
        ActionKind::InputValue
    } else if a == "getattribute"@ {
        ActionKind::GetAttribute
    } else if a == "count"@ {
        ActionKind::Count
    } else if a == "boundingbox"@ {
        ActionKind::BoundingBox
    } else if a == "styles"@ {
        ActionKind::Styles
    } else if a == "isvisible"@ {
        ActionKind::IsVisible
    } else if a == "isenabled"@ {
        ActionKind::IsEnabled
    } else if a == "ischecked"@ {
        ActionKind::IsChecked
    } else {
        ActionKind::Unsupported
    }
}

/// The kind of an action name.
#[verifier::rlimit(40)]
pub fn action_kind(a: &str) -> (k: ActionKind)
    ensures
        k == action_kind_spec(a@),
{
    let c = chars_of(a);
    if is_text(&c, "launch") {
        ActionKind::Launch
    } else if is_text(&c, "navigate") {
        ActionKind::Navigate
    } else if is_text(&c, "url") {
        ActionKind::Url
    } else if is_text(&c, "cdp_url") {
        ActionKind::CdpUrl
    } else if is_text(&c, "title") {
        ActionKind::Title
    } else if is_text(&c, "content") {
        ActionKind::Content
    } else if is_text(&c, "evaluate") {
        ActionKind::Evaluate
    } else if is_text(&c, "snapshot") {
        ActionKind::Snapshot
    } else if is_text(&c, "click") {
        ActionKind::Click(1)
    } else if is_text(&c, "dblclick") {
        ActionKind::Click(2)
    } else if is_text(&c, "fill") {
        ActionKind::Fill
    } else if is_text(&c, "type") {
        ActionKind::Type
    } else if is_text(&c, "press") {
        ActionKind::Press
    } else if is_text(&c, "keyboard") {
        ActionKind::Keyboard
    } else if is_text(&c, "hover") {
        ActionKind::Hover
    } else if is_text(&c, "mousemove") {
        ActionKind::MouseMove
    } else if is_text(&c, "mousedown") {
        ActionKind::MouseButton(true)
    } else if is_text(&c, "mouseup") {
        ActionKind::MouseButton(false)
    } else if is_text(&c, "wheel") {
        ActionKind::Wheel
    } else if is_text(&c, "drag") {
        ActionKind::Drag
    } else if is_text(&c, "focus") {
        ActionKind::Focus
    } else if is_text(&c, "scroll") {
        ActionKind::Scroll
    } else if is_text(&c, "scrollintoview") {
        ActionKind::ScrollIntoView
    } else if is_text(&c, "select") {
        ActionKind::Select
    } else if is_text(&c, "check") {
        ActionKind::Check(true)
    } else if is_text(&c, "uncheck") {
        ActionKind::Check(false)
    } else if is_text(&c, "wait") {
        ActionKind::Wait
    } else if is_text(&c, "waitforurl") {
        ActionKind::WaitForUrl
    } else if is_text(&c, "waitforloadstate") {
        ActionKind::WaitForLoadState
    } else if is_text(&c, "waitforfunction") {
        ActionKind::WaitForFunction
    } else if is_text(&c, "gettext") {
        ActionKind::GetText
    } else if is_text(&c, "innerhtml") {
        ActionKind::InnerHtml
    } else if is_text(&c, "inputvalue") {
        ActionKind::InputValue
    } else if is_text(&c, "getattribute") {
        ActionKind::GetAttribute
    } else if is_text(&c, "count") {
        ActionKind::Count
    } else if is_text(&c, "boundingbox") {
        ActionKind::BoundingBox
    } else if is_text(&c, "styles") {
        ActionKind::Styles
    } else if is_text(&c, "isvisible") {
        ActionKind::IsVisible
    } else if is_text(&c, "isenabled") {
        ActionKind::IsEnabled
    } else if is_text(&c, "ischecked") {
        ActionKind::IsChecked
    } else {
        ActionKind::Unsupported
    }
}

/// The error for an action the browser build does not have.
pub fn unsupported_action(a: &str) -> (m: String)
    ensures
        m@ == "Command is not available in the browser build: "@ + a@,
{
    let mut out: Vec<char> = Vec::new();
    push_str(&mut out, "Command is not available in the browser build: ");
    push_str(&mut out, a);
    string_of(&out)
}

/// The reply of an action that needs no page work: an empty object for
/// `launch` and `waitforloadstate`, the in-page CDP URL for `cdp_url`.
pub fn constant_reply(kind: &ActionKind) -> (r: Option<JsonValue>)
    ensures
        match *kind {
            ActionKind::Launch | ActionKind::WaitForLoadState => (r matches Some(
                JsonValue::Object(e),
            ) && e@.len() == 0),
            ActionKind::CdpUrl => (r matches Some(JsonValue::Object(e)) && e@.len() == 1
                && e@[0].0@ == "cdpUrl"@ && (e@[0].1 matches JsonValue::Str(u) && u@
                == "in-page://icdp"@)),
            _ => r is None,
        },
{
    match kind {
        ActionKind::Launch | ActionKind::WaitForLoadState => Some(JsonValue::Object(Vec::new())),
        ActionKind::CdpUrl => {
            let mut e: Vec<(String, JsonValue)> = Vec::new();
            e.push((String::from_str("cdpUrl"), JsonValue::Str(String::from_str("in-page://icdp"))));
            Some(JsonValue::Object(e))
        },
        _ => None,
    }
}

/// The script that a state check runs on its element: whether it is
/// visible, enabled or checked; any other check is refused.
pub fn state_check_script(kind: &str) -> (r: Result<&'static str, String>)
    ensures
        kind@ == "visible"@ ==> (r matches Ok(s) && s@ == r#"(element) => {
                const rect = element.getBoundingClientRect();
                const style = getComputedStyle(element);
                return rect.width > 0 && rect.height > 0 && style.visibility !== "hidden" && style.display !== "none";
            }"#@),
        kind@ == "enabled"@ ==> (r matches Ok(s) && s@ == r#"(element) => !element.disabled && element.getAttribute("aria-disabled") !== "true""#@),
        kind@ == "checked"@ ==> (r matches Ok(s) && s@ == r#"(element) => Boolean(element.checked || element.getAttribute("aria-checked") === "true")"#@),
        !(kind@ == "visible"@ || kind@ == "enabled"@ || kind@ == "checked"@) ==> (r matches Err(m)
            && m@ == "Unsupported state check: "@ + kind@),
{
    proof {
        reveal_strlit("visible");
        reveal_strlit("enabled");
        reveal_strlit("checked");
        assert("enabled"@[0] != "visible"@[0]);
        assert("checked"@[0] != "visible"@[0]);
        assert("checked"@[0] != "enabled"@[0]);
    }
    let k = chars_of(kind);
    if is_text(&k, "visible") {
        Ok(r#"(element) => {
                const rect = element.getBoundingClientRect();
                const style = getComputedStyle(element);
                return rect.width > 0 && rect.height > 0 && style.visibility !== "hidden" && style.display !== "none";
            }"#)
    } else if is_text(&k, "enabled") {
        Ok(r#"(element) => !element.disabled && element.getAttribute("aria-disabled") !== "true""#)
    } else if is_text(&k, "checked") {
        Ok(r#"(element) => Boolean(element.checked || element.getAttribute("aria-checked") === "true")"#)
    } else {
        let mut m: Vec<char> = Vec::new();
        push_str(&mut m, "Unsupported state check: ");
        push_str(&mut m, kind);
        Err(string_of(&m))
    }
}

/// Whether a `keyboard` command inserts its text: only its `type` and
/// `insertText` subcommands do; any other is refused.
pub fn keyboard_inserts(command: &JsonValue) -> (r: Result<(), String>)
    ensures
        (member_str(*command, "subaction"@) == Some("type"@) || member_str(
            *command,
            "subaction"@,
        ) == Some("insertText"@)) ==> r is Ok,
        !(member_str(*command, "subaction"@) == Some("type"@) || member_str(
            *command,
            "subaction"@,
        ) == Some("insertText"@)) ==> (r matches Err(m) && m@ == "Unsupported keyboard subcommand"@),
{
    match command.member_str("subaction") {
        Some(s) => {
            let c = chars_of(s);
            if is_text(&c, "type") || is_text(&c, "insertText") {
                Ok(())
            } else {
                Err(String::from_str("Unsupported keyboard subcommand"))
            }
        },
        None => Err(String::from_str("Unsupported keyboard subcommand")),
    }
}

/// Whether a `type` command clears the field first (and so fills it).
pub fn clears_first(command: &JsonValue) -> (r: bool)
    ensures
        r == (crate::json::member_bool(*command, "clear"@) == Some(true)),
{
    command.member_bool("clear") == Some(true)
}

/// The duration of the move before a click: 200 ms in smooth mode, else
/// the command's own.
pub fn click_duration(command: &JsonValue) -> (r: Option<u64>)
    ensures
        r == (if member_str(*command, "inputMode"@) == Some("smooth"@) {
            Some(200u64)
        } else {
            None::<u64>
        }),
{
    match command.member_str("inputMode") {
        Some(m) => {
            let c = chars_of(m);
            if is_text(&c, "smooth") {
                Some(200)
            } else {
                None
            }
        },
        None => None,
    }
}

/// The button that a click presses: the command's, else `left`.
pub fn click_button(command: &JsonValue) -> (b: &str)
    ensures
        b@ == match member_str(*command, "button"@) {
            Some(s) => s,
            None => "left"@,
        },
{
    match command.member_str("button") {
        Some(s) => s,
        None => "left",
    }
}

/// The click counts of the presses of a click: 1, 2, ... up to `count`.
pub fn click_counts(count: i64) -> (v: Vec<i64>)
    ensures
        v@.len() == (if count > 0 {
            count as int
        } else {
            0
        }),
        forall|i: int| 0 <= i < v@.len() ==> #[trigger] v@[i] == i + 1,
{
    let n: i64 = if count > 0 {
        count
    } else {
        0
    };
    let mut v: Vec<i64> = Vec::new();
    let mut i: i64 = 0;
    while i < n
        invariant
            0 <= i <= n,
            n == (if count > 0 {
                count
            } else {
                0
            }),
            v@.len() == i,
            forall|j: int| 0 <= j < v@.len() ==> #[trigger] v@[j] == j + 1,
        decreases n - i,
    {
        v.push(i + 1);
        i = i + 1;
    }
    v
}

/// How a drag moves: in human mode the command's own steps, else one step
/// to the source and ten to the target; 250 ms to the target in human mode,
/// else 100 ms; and the next seed for the second move.
pub struct DragPlan {
    pub first_steps: Option<u64>,
    pub second_duration: u64,
    pub second_steps: Option<u64>,
    pub second_seed: u64,
}

/// The moves of a drag.
pub fn drag_plan(command: &JsonValue) -> (p: DragPlan)
    ensures
        ({
            let human = member_str(*command, "inputMode"@) == Some("human"@);
            let seed: u64 = match crate::json::member_u64(*command, "seed"@) {
                Some(s) => s,
                None => 0,
            };
            &&& p.first_steps == if human {
                None::<u64>
            } else {
                Some(1u64)
            }
            &&& p.second_duration == if human {
                250u64
            } else {
                100u64
            }
            &&& p.second_steps == if human {
                None::<u64>
            } else {
                Some(10u64)
            }
            &&& p.second_seed == if seed == u64::MAX {
                0
            } else {
                seed + 1
            }
        }),
{
    let human = match command.member_str("inputMode") {
        Some(m) => {
            let c = chars_of(m);
            is_text(&c, "human")
        },
        None => false,
    };
    let seed = match command.member_u64("seed") {
        Some(s) => s,
        None => 0,
    };
    let next = if seed == 18446744073709551615u64 {
        0
    } else {
        seed + 1
    };
    if human {
        DragPlan { first_steps: None, second_duration: 250, second_steps: None, second_seed: next }
    } else {
        DragPlan {
            first_steps: Some(1),
            second_duration: 100,
            second_steps: Some(10),
            second_seed: next,
        }
    }
}

/// The number of steps asked for a mouse move: the command's, at most 240;
/// else one for an instant move with no duration; else none, so that the
/// path decides.
pub fn requested_steps(steps: Option<u64>, mode: Option<&str>, duration: u64) -> (r: Option<usize>)
    ensures
        r == match steps {
            Some(s) => Some((if s <= 240 {
                s
            } else {
                240
            }) as usize),
            None => if (match mode {
                Some(m) => m@ == "instant"@,
                None => true,
            }) && duration == 0 {
                Some(1usize)
            } else {
                None::<usize>
            },
        },
{
    match steps {
        Some(s) => {
            let capped: u64 = if s <= 240 {
                s
            } else {
                240
            };
            Some(capped as usize)
        },
        None => {
            let instant = match mode {
                Some(m) => {
                    let c = chars_of(m);
                    is_text(&c, "instant")
                },
                None => true,
            };
            if instant && duration == 0 {
                Some(1)
            } else {
                None
            }
        },
    }
}

/// The single value of a `select` command, when it gives a string in place
/// of a list.
pub fn single_select_value(command: &JsonValue) -> (r: Option<&str>)
    ensures
        match r {
            Some(s) => member_str(*command, "values"@) == Some(s@),
            None => member_str(*command, "values"@) is None,
        },
{
    command.member_str("values")
}

// ---------------------------------------------------------------------------
// Mouse and keys

/// The bit of a mouse button in the `buttons` mask.
pub open spec fn button_bit(b: Seq<char>) -> Option<u32> {
    if b == "left"@ {
        Some(1)
    } else if b == "right"@ {
        Some(2)
    } else if b == "middle"@ {
        Some(4)
    } else if b == "back"@ {
        Some(8)
    } else if b == "forward"@ {
        Some(16)
    } else {
        None
    }
}

/// The bit of a mouse button; an error for an unknown button.
pub fn mouse_button_mask(button: &str) -> (r: Result<u32, String>)
    ensures
        match r {
            Ok(m) => button_bit(button@) == Some(m),
            Err(e) => button_bit(button@) is None && e@ == "Invalid mouse button: "@ + button@,
        },
{
    let b = chars_of(button);
    if is_text(&b, "left") {
        Ok(1)
    } else if is_text(&b, "right") {
        Ok(2)
    } else if is_text(&b, "middle") {
        Ok(4)
    } else if is_text(&b, "back") {
        Ok(8)
    } else if is_text(&b, "forward") {
        Ok(16)
    } else {
        let mut out: Vec<char> = Vec::new();
        push_str(&mut out, "Invalid mouse button: ");
        push_all(&mut out, &b);
        Err(string_of(&out))
    }
}

/// The held buttons after a button is pressed or released.
pub open spec fn buttons_after(buttons: u32, mask: u32, down: bool) -> u32 {
    if down {
        buttons | mask
    } else {
        buttons & !mask
    }
}

/// The held buttons after a button is pressed or released.
pub fn apply_mouse_button(buttons: u32, mask: u32, down: bool) -> (r: u32)
    ensures
        r == buttons_after(buttons, mask, down),
{
    if down {
        buttons | mask
    } else {
        buttons & !mask
    }
}

/// The text a key types: the key itself when it is one character.
pub open spec fn key_text_spec(key: Seq<char>) -> Seq<char> {
    if key.len() == 1 {
        key
    } else {
        Seq::empty()
    }
}

/// The text a key types: the key itself when it is one character.
pub fn key_text(key: &str) -> (t: &str)
    ensures
        t@ == key_text_spec(key@),
{
    let c = chars_of(key);
    if c.len() == 1 {
        key
    } else {
        proof {
            reveal_strlit("");
        }
        ""
    }
}

} // verus!

verus! {

// ---------------------------------------------------------------------------
// Snapshots as replies

/// The snapshot options a command asks for.
pub fn snapshot_options(command: &JsonValue) -> (o: crate::snapshot_format::SnapshotOptions)
    ensures
        o.interactive == (crate::json::member_bool(*command, "interactive"@) == Some(true)),
        o.compact == (crate::json::member_bool(*command, "compact"@) == Some(true)),
        o.depth == match crate::json::member_u64(*command, "maxDepth"@) {
            Some(v) => Some(v as usize),
            None => None::<usize>,
        },
        o.urls == (crate::json::member_bool(*command, "urls"@) == Some(true)),
{
    crate::snapshot_format::SnapshotOptions {
        interactive: command.member_bool("interactive") == Some(true),
        compact: command.member_bool("compact") == Some(true),
        depth: match command.member_u64("maxDepth") {
            Some(v) => Some(v as usize),
            None => None,
        },
        urls: command.member_bool("urls") == Some(true),
    }
}

/// The JSON of one ref: its label, with its name and role.
pub open spec fn ref_json(e: (String, JsonValue), r: RefEntry) -> bool {
    &&& e.0@ == r.0
    &&& match e.1 {
        JsonValue::Object(fields) => fields@.len() == 2 && fields@[0].0@ == "name"@ && json_str(
            fields@[0].1,
        ) == Some(r.3) && fields@[1].0@ == "role"@ && json_str(fields@[1].1) == Some(r.2),
        _ => false,
    }
}

/// The data of a snapshot reply: its origin, its refs and its text.
pub open spec fn snapshot_reply(d: JsonValue, output: Seq<char>, refs: Seq<RefEntry>, origin: Seq<char>) -> bool {
    match d {
        JsonValue::Object(es) => {
            &&& es@.len() == 3
            &&& es@[0].0@ == "origin"@
            &&& json_str(es@[0].1) == Some(origin)
            &&& es@[1].0@ == "refs"@
            &&& match es@[1].1 {
                JsonValue::Object(rs) => rs@.len() == refs.len() && forall|i: int|
                    0 <= i < rs@.len() ==> ref_json(#[trigger] rs@[i], refs[i]),
                _ => false,
            }
            &&& es@[2].0@ == "snapshot"@
            &&& json_str(es@[2].1) == Some(output)
        },
        _ => false,
    }
}

/// The data of a snapshot reply. The origin is the page's location when it
/// is a string, otherwise empty.
pub fn snapshot_data(output: String, refs: &Vec<(String, SnapshotRef)>, origin: &JsonValue) -> (d:
    JsonValue)
    ensures
        snapshot_reply(
            d,
            output@,
            crate::snapshot_format::ref_list_view(refs@),
            match json_str(*origin) {
                Some(o) => o,
                None => Seq::empty(),
            },
        ),
{
    let ghost views = crate::snapshot_format::ref_list_view(refs@);
    let mut ref_entries: Vec<(String, JsonValue)> = Vec::new();
    let mut i: usize = 0;
    while i < refs.len()
        invariant
            i <= refs@.len(),
            views == crate::snapshot_format::ref_list_view(refs@),
            ref_entries@.len() == i,
            forall|j: int| 0 <= j < i ==> ref_json(#[trigger] ref_entries@[j], views[j]),
        decreases refs@.len() - i,
    {
        let mut fields: Vec<(String, JsonValue)> = Vec::new();
        fields.push((String::from_str("name"), JsonValue::Str(refs[i].1.name.clone())));
        fields.push((String::from_str("role"), JsonValue::Str(refs[i].1.role.clone())));
        ref_entries.push((refs[i].0.clone(), JsonValue::Object(fields)));
        assert(ref_json(ref_entries@[i as int], views[i as int]));
        i = i + 1;
    }
    let origin_text = match origin.as_str() {
        Some(o) => String::from_str(o),
        None => String::new(),
    };
    let mut entries: Vec<(String, JsonValue)> = Vec::new();
    entries.push((String::from_str("origin"), JsonValue::Str(origin_text)));
    entries.push((String::from_str("refs"), JsonValue::Object(ref_entries)));
    entries.push((String::from_str("snapshot"), JsonValue::Str(output)));
    JsonValue::Object(entries)
}

} // verus!

verus! {

// ---------------------------------------------------------------------------
// Laws

proof fn lemma_stored_ref_numbered(entries: Seq<RefEntry>, offset: nat, k: int)
    requires
        0 <= k < entries.len(),
        forall|i: int|
            0 <= i < entries.len() ==> (#[trigger] entries[i]).0
                == crate::snapshot_format::ref_label((offset + i + 1) as nat),
    ensures
        stored_ref(entries, crate::snapshot_format::ref_label((offset + k + 1) as nat)) == Some(entries[k]),
    decreases k,
{
    if k > 0 {
        let rest = entries.drop_first();
        assert(entries[0].0 == crate::snapshot_format::ref_label(offset + 1));
        if entries[0].0 == crate::snapshot_format::ref_label((offset + k + 1) as nat) {
            crate::snapshot_format::lemma_ref_label_injective(offset + 1, (offset + k + 1) as nat);
        }
        assert forall|i: int| 0 <= i < rest.len() implies (#[trigger] rest[i]).0
            == crate::snapshot_format::ref_label((offset + 1 + i + 1) as nat) by {
            assert(rest[i] == entries[i + 1]);
        }
        lemma_stored_ref_numbered(rest, offset + 1, k - 1);
        assert(offset + 1 + (k - 1) + 1 == offset + k + 1);
        assert(rest[k - 1] == entries[k]);
    }
}

/// Reading a ref back after a snapshot's refs are stored gives what was
/// stored under it: every label of the snapshot's refs finds its own entry.
pub proof fn lemma_snapshot_refs_resolve(ms: Seq<crate::snapshot_format::NodeModel>, k: int)
    requires
        0 <= k < crate::snapshot_format::ref_entries(ms).len(),
    ensures
        stored_ref(
            crate::snapshot_format::ref_entries(ms),
            crate::snapshot_format::ref_entries(ms)[k].0,
        ) == Some(crate::snapshot_format::ref_entries(ms)[k]),
{
    let entries = crate::snapshot_format::ref_entries(ms);
    crate::snapshot_format::lemma_ref_labels_consecutive(ms);
    assert forall|i: int| 0 <= i < entries.len() implies (#[trigger] entries[i]).0
        == crate::snapshot_format::ref_label((0 + i + 1) as nat) by {
        assert(entries[i].0 == crate::snapshot_format::ref_label((i + 1) as nat));
    }
    lemma_stored_ref_numbered(entries, 0, k);
}

/// Once the refs are forgotten, no label finds an entry.
pub proof fn lemma_reset_forgets(label: Seq<char>)
    ensures
        stored_ref(Seq::<RefEntry>::empty(), label) is None,
{
}

/// Every printed ref can be given back as a selector, with or without `@`,
/// and names itself.
pub proof fn lemma_printed_ref_is_selector(k: nat)
    ensures
        ref_of(crate::snapshot_format::ref_label(k)) == Some(crate::snapshot_format::ref_label(k)),
        ref_of(seq!['@'] + crate::snapshot_format::ref_label(k)) == Some(
            crate::snapshot_format::ref_label(k),
        ),
{
    let label = crate::snapshot_format::ref_label(k);
    crate::text::lemma_decimal_len(k);
    crate::text::lemma_decimal_digits(k);
    assert forall|i: int| 1 <= i < label.len() implies is_ascii_digit(#[trigger] label[i]) by {
        assert(label[i] == crate::text::decimal(k)[i - 1]);
    }
    assert((seq!['@'] + label).drop_first() =~= label);
    assert(without_at(label) == label);
}

/// Releasing a button after pressing it leaves the other buttons as they
/// were before the press, and the button released.
pub proof fn lemma_press_release(buttons: u32, mask: u32)
    ensures
        buttons_after(buttons_after(buttons, mask, true), mask, false) == buttons_after(
            buttons,
            mask,
            false,
        ),
        buttons_after(buttons, mask, true) & mask == mask,
        buttons_after(buttons, mask, false) & mask == 0,
{
    assert(((buttons | mask) & !mask) == (buttons & !mask)) by (bit_vector);
    assert(((buttons | mask) & mask) == mask) by (bit_vector);
    assert(((buttons & !mask) & mask) == 0) by (bit_vector);
}

} // verus!

verus! {

// ---------------------------------------------------------------------------
// Scripts run on elements

/// The script that runs `function_source` on the first element matching a
/// CSS selector, and fails when none matches.
pub open spec fn selector_script(selector: Seq<char>, function_source: Seq<char>) -> Seq<char> {
    "(() => {\n                const selector = "@ + crate::json::json_string_literal(selector)
        + ";\n                const element = document.querySelector(selector);\n                if (!element) throw new Error(\"No element matches selector: \" + selector);\n                return ("@
        + function_source + ")(element);\n            })()"@
}

/// The function declaration that runs `function_source` on the element it
/// is called on.
pub open spec fn element_function(function_source: Seq<char>) -> Seq<char> {
    "function() { return ("@ + function_source + ")(this); }"@
}

/// The script that runs `function_source` on the first element matching
/// `selector`.
pub fn selector_expression(selector: &str, function_source: &str) -> (out: String)
    ensures
        out@ == selector_script(selector@, function_source@),
{
    let quoted = match crate::json::quote_json_string(selector) {
        Some(q) => q,
        None => String::new(),
    };
    let mut out: Vec<char> = Vec::new();
    push_str(&mut out, "(() => {\n                const selector = ");
    push_str(&mut out, quoted.as_str());
    push_str(
        &mut out,
        ";\n                const element = document.querySelector(selector);\n                if (!element) throw new Error(\"No element matches selector: \" + selector);\n                return (",
    );
    push_str(&mut out, function_source);
    push_str(&mut out, ")(element);\n            })()");
    string_of(&out)
}

/// The function declaration that runs `function_source` on the element it
/// is called on.
pub fn call_on_declaration(function_source: &str) -> (out: String)
    ensures
        out@ == element_function(function_source@),
{
    let mut out: Vec<char> = Vec::new();
    push_str(&mut out, "function() { return (");
    push_str(&mut out, function_source);
    push_str(&mut out, ")(this); }");
    string_of(&out)
}

} // verus!

verus! {

// ---------------------------------------------------------------------------
// Scripts for actions

/// The function that selects the options of a `<select>` whose value or text is among `values` (a JSON array).
pub open spec fn select_function_text(values: Seq<char>) -> Seq<char> {
    "(element) => {\n                if (!(element instanceof HTMLSelectElement)) throw new Error(\"Element is not a select\");\n                const values = new Set("@ + values + ");\n                for (const option of element.options) option.selected = values.has(option.value) || values.has(option.text);\n                element.dispatchEvent(new Event(\"input\", { bubbles: true }));\n                element.dispatchEvent(new Event(\"change\", { bubbles: true }));\n                return true;\n            }"@
}

/// The function that selects the options of a `<select>` whose value or text is among `values` (a JSON array).
pub fn select_function(values: &str) -> (out: String)
    ensures
        out@ == select_function_text(values@),
{
    let mut out: Vec<char> = Vec::new();
    push_str(&mut out, "(element) => {\n                if (!(element instanceof HTMLSelectElement)) throw new Error(\"Element is not a select\");\n                const values = new Set(");
    push_str(&mut out, values);
    push_str(&mut out, ");\n                for (const option of element.options) option.selected = values.has(option.value) || values.has(option.text);\n                element.dispatchEvent(new Event(\"input\", { bubbles: true }));\n                element.dispatchEvent(new Event(\"change\", { bubbles: true }));\n                return true;\n            }");
    string_of(&out)
}

/// The function that sets whether a box is checked.
pub open spec fn check_function_text(checked: bool) -> Seq<char> {
    "(element) => {\n                if (!(\"checked\" in element)) throw new Error(\"Element is not checkable\");\n                element.checked = "@ + crate::snapshot_format::bool_text(checked) + ";\n                element.dispatchEvent(new Event(\"input\", { bubbles: true }));\n                element.dispatchEvent(new Event(\"change\", { bubbles: true }));\n                return true;\n            }"@
}

/// The function that sets whether a box is checked.
pub fn check_function(checked: bool) -> (out: String)
    ensures
        out@ == check_function_text(checked),
{
    let mut out: Vec<char> = Vec::new();
    push_str(&mut out, "(element) => {\n                if (!(\"checked\" in element)) throw new Error(\"Element is not checkable\");\n                element.checked = ");
    push_str(&mut out, if checked {
        "true"
    } else {
        "false"
    });
    push_str(&mut out, ";\n                element.dispatchEvent(new Event(\"input\", { bubbles: true }));\n                element.dispatchEvent(new Event(\"change\", { bubbles: true }));\n                return true;\n            }");
    string_of(&out)
}

/// The script that waits up to five seconds for `text` to show in the page.
pub open spec fn wait_text_script_text(text: Seq<char>) -> Seq<char> {
    "new Promise((resolve, reject) => {\n                    const started = Date.now();\n                    const tick = () => {\n                        if ((document.body?.innerText || \"\").includes("@ + crate::json::json_string_literal(text) + ")) return resolve(true);\n                        if (Date.now() - started > 5000) return reject(new Error(\"Timed out waiting for text\"));\n                        setTimeout(tick, 100);\n                    };\n                    tick();\n                })"@
}

/// The script that waits up to five seconds for `text` to show in the page.
pub fn wait_text_script(text: &str) -> (out: String)
    ensures
        out@ == wait_text_script_text(text@),
{
    let mut out: Vec<char> = Vec::new();
    push_str(&mut out, "new Promise((resolve, reject) => {\n                    const started = Date.now();\n                    const tick = () => {\n                        if ((document.body?.innerText || \"\").includes(");
    let quoted = match crate::json::quote_json_string(text) {
        Some(q) => q,
        None => String::new(),
    };
    push_str(&mut out, quoted.as_str());
    push_str(&mut out, ")) return resolve(true);\n                        if (Date.now() - started > 5000) return reject(new Error(\"Timed out waiting for text\"));\n                        setTimeout(tick, 100);\n                    };\n                    tick();\n                })");
    string_of(&out)
}

/// The script that waits up to five seconds for an element to match `selector`.
pub open spec fn wait_selector_script_text(selector: Seq<char>) -> Seq<char> {
    "new Promise((resolve, reject) => {\n                const started = Date.now();\n                const tick = () => {\n                    if (document.querySelector("@ + crate::json::json_string_literal(selector) + ")) return resolve(true);\n                    if (Date.now() - started > 5000) return reject(new Error(\"Timed out waiting for selector\"));\n                    setTimeout(tick, 100);\n                };\n                tick();\n            })"@
}

/// The script that waits up to five seconds for an element to match `selector`.
pub fn wait_selector_script(selector: &str) -> (out: String)
    ensures
        out@ == wait_selector_script_text(selector@),
{
    let mut out: Vec<char> = Vec::new();
    push_str(&mut out, "new Promise((resolve, reject) => {\n                const started = Date.now();\n                const tick = () => {\n                    if (document.querySelector(");
    let quoted = match crate::json::quote_json_string(selector) {
        Some(q) => q,
        None => String::new(),
    };
    push_str(&mut out, quoted.as_str());
    push_str(&mut out, ")) return resolve(true);\n                    if (Date.now() - started > 5000) return reject(new Error(\"Timed out waiting for selector\"));\n                    setTimeout(tick, 100);\n                };\n                tick();\n            })");
    string_of(&out)
}

/// The script that waits up to five seconds for the URL to hold `pattern` (with `**` removed).
pub open spec fn wait_url_script_text(pattern: Seq<char>) -> Seq<char> {
    "new Promise((resolve, reject) => {\n                const expected = "@ + crate::json::json_string_literal(pattern) + ".replace(/\\*\\*/g, \"\");\n                const started = Date.now();\n                const tick = () => {\n                    if (location.href.includes(expected)) return resolve(true);\n                    if (Date.now() - started > 5000) return reject(new Error(\"Timed out waiting for URL\"));\n                    setTimeout(tick, 100);\n                };\n                tick();\n            })"@
}

/// The script that waits up to five seconds for the URL to hold `pattern` (with `**` removed).
pub fn wait_url_script(pattern: &str) -> (out: String)
    ensures
        out@ == wait_url_script_text(pattern@),
{
    let mut out: Vec<char> = Vec::new();
    push_str(&mut out, "new Promise((resolve, reject) => {\n                const expected = ");
    let quoted = match crate::json::quote_json_string(pattern) {
        Some(q) => q,
        None => String::new(),
    };
    push_str(&mut out, quoted.as_str());
    push_str(&mut out, ".replace(/\\*\\*/g, \"\");\n                const started = Date.now();\n                const tick = () => {\n                    if (location.href.includes(expected)) return resolve(true);\n                    if (Date.now() - started > 5000) return reject(new Error(\"Timed out waiting for URL\"));\n                    setTimeout(tick, 100);\n                };\n                tick();\n            })");
    string_of(&out)
}

/// The script that waits up to five seconds for `expression` to be true.
pub open spec fn wait_function_script_text(expression: Seq<char>) -> Seq<char> {
    "new Promise((resolve, reject) => {\n                const started = Date.now();\n                const tick = () => {\n                    if (("@ + expression + ")) return resolve(true);\n                    if (Date.now() - started > 5000) return reject(new Error(\"Timed out waiting for function\"));\n                    setTimeout(tick, 100);\n                };\n                tick();\n            })"@
}

/// The script that waits up to five seconds for `expression` to be true.
pub fn wait_function_script(expression: &str) -> (out: String)
    ensures
        out@ == wait_function_script_text(expression@),
{
    let mut out: Vec<char> = Vec::new();
    push_str(&mut out, "new Promise((resolve, reject) => {\n                const started = Date.now();\n                const tick = () => {\n                    if ((");
    push_str(&mut out, expression);
    push_str(&mut out, ")) return resolve(true);\n                    if (Date.now() - started > 5000) return reject(new Error(\"Timed out waiting for function\"));\n                    setTimeout(tick, 100);\n                };\n                tick();\n            })");
    string_of(&out)
}

/// The function that reads the attribute `attribute` of an element.
pub open spec fn attribute_function_text(attribute: Seq<char>) -> Seq<char> {
    "(element) => element.getAttribute("@ + crate::json::json_string_literal(attribute) + ")"@
}

/// The function that reads the attribute `attribute` of an element.
pub fn attribute_function(attribute: &str) -> (out: String)
    ensures
        out@ == attribute_function_text(attribute@),
{
    let mut out: Vec<char> = Vec::new();
    push_str(&mut out, "(element) => element.getAttribute(");
    let quoted = match crate::json::quote_json_string(attribute) {
        Some(q) => q,
        None => String::new(),
    };
    push_str(&mut out, quoted.as_str());
    push_str(&mut out, ")");
    string_of(&out)
}

/// The script that counts the elements matching `selector`.
pub open spec fn count_script_text(selector: Seq<char>) -> Seq<char> {
    "document.querySelectorAll("@ + crate::json::json_string_literal(selector) + ").length"@
}

/// The script that counts the elements matching `selector`.
pub fn count_script(selector: &str) -> (out: String)
    ensures
        out@ == count_script_text(selector@),
{
    let mut out: Vec<char> = Vec::new();
    push_str(&mut out, "document.querySelectorAll(");
    let quoted = match crate::json::quote_json_string(selector) {
        Some(q) => q,
        None => String::new(),
    };
    push_str(&mut out, quoted.as_str());
    push_str(&mut out, ").length");
    string_of(&out)
}

/// The script that waits `timeout` milliseconds.
pub open spec fn wait_timeout_script_text(timeout: u64) -> Seq<char> {
    "new Promise(resolve => setTimeout(resolve, "@ + crate::text::decimal(timeout as nat) + "))"@
}

/// The script that waits `timeout` milliseconds.
pub fn wait_timeout_script(timeout: u64) -> (out: String)
    ensures
        out@ == wait_timeout_script_text(timeout),
{
    let mut out: Vec<char> = Vec::new();
    push_str(&mut out, "new Promise(resolve => setTimeout(resolve, ");
    crate::text::push_decimal(&mut out, timeout);
    push_str(&mut out, "))");
    string_of(&out)
}

} // verus!

verus! {

// ---------------------------------------------------------------------------
// Attaching to a page

/// A target that is a page or an iframe.
pub open spec fn page_like(t: JsonValue) -> bool {
    match member_str(t, "type"@) {
        Some(k) => k == "page"@ || k == "iframe"@,
        None => false,
    }
}

/// The first page-like target from `i` on.
pub open spec fn first_page_like(items: Seq<JsonValue>, i: int) -> Option<int>
    decreases items.len() - i,
{
    if i < 0 || i >= items.len() {
        None
    } else if page_like(items[i]) {
        Some(i)
    } else {
        first_page_like(items, i + 1)
    }
}

/// The target to attach to: the first page or iframe, else the first target.
pub open spec fn chosen_target(targets: JsonValue) -> Option<JsonValue> {
    match json_get(targets, "targetInfos"@) {
        Some(JsonValue::Array(items)) => match first_page_like(items@, 0) {
            Some(i) => Some(items@[i]),
            None => if items@.len() > 0 {
                Some(items@[0])
            } else {
                None
            },
        },
        _ => None,
    }
}

/// The identifier of the target to attach to, or the error when there is none.
pub open spec fn target_choice(targets: JsonValue) -> Result<Seq<char>, Seq<char>> {
    match chosen_target(targets) {
        Some(t) => match member_str(t, "targetId"@) {
            Some(id) => Ok(id),
            None => Err("CDP endpoint did not expose a target"@),
        },
        None => Err("CDP endpoint did not expose a target"@),
    }
}

fn is_page_like(t: &JsonValue) -> (r: bool)
    ensures
        r == page_like(*t),
{
    match t.member_str("type") {
        Some(k) => {
            let kc = chars_of(k);
            is_text(&kc, "page") || is_text(&kc, "iframe")
        },
        None => false,
    }
}

/// The identifier of the target to attach to, from a `Target.getTargets` reply.
pub fn pick_target(targets: &JsonValue) -> (r: Result<String, String>)
    ensures
        match r {
            Ok(id) => target_choice(*targets) == Ok::<Seq<char>, Seq<char>>(id@),
            Err(e) => target_choice(*targets) == Err::<Seq<char>, Seq<char>>(e@),
        },
{
    let chosen: Option<&JsonValue> = match targets.get("targetInfos") {
        Some(JsonValue::Array(items)) => {
            let mut i: usize = 0;
            while i < items.len() && !is_page_like(&items[i])
                invariant
                    i <= items@.len(),
                    first_page_like(items@, 0) == first_page_like(items@, i as int),
                decreases items@.len() - i,
            {
                i = i + 1;
            }
            if i < items.len() {
                Some(&items[i])
            } else if items.len() > 0 {
                Some(&items[0])
            } else {
                None
            }
        },
        _ => None,
    };
    match chosen {
        Some(t) => match t.member_str("targetId") {
            Some(id) => Ok(String::from_str(id)),
            None => Err(String::from_str("CDP endpoint did not expose a target")),
        },
        None => Err(String::from_str("CDP endpoint did not expose a target")),
    }
}

/// The session of a `Target.attachToTarget` reply.
pub fn attached_session(attached: &JsonValue) -> (r: Result<String, String>)
    ensures
        match r {
            Ok(id) => member_str(*attached, "sessionId"@) == Some(id@),
            Err(e) => member_str(*attached, "sessionId"@) is None && e@
                == "CDP endpoint did not return a sessionId"@,
        },
{
    match attached.member_str("sessionId") {
        Some(id) => Ok(String::from_str(id)),
        None => Err(String::from_str("CDP endpoint did not return a sessionId")),
    }
}

} // verus!

verus! {

// ---------------------------------------------------------------------------
// Laws of printing and of command handling

/// Page content is cut to the output limit whether or not it is framed: a
/// framed page is the header with its origin (or `unknown`), then exactly
/// what the unframed page prints, then the footer. Content longer than the
/// limit prints its first `limit` characters and the truncation note;
/// content within the limit, or with no limit, prints as it is.
pub proof fn lemma_page_content_cut_then_framed(
    content: Seq<char>,
    origin: Option<Seq<char>>,
    options: OutputOptions,
)
    ensures
        page_text(content, origin, OutputOptions { content_boundaries: true, ..options })
            == "--- AGENT_BROWSER_PAGE_CONTENT nonce=wasm origin="@ + (match origin {
            Some(o) => o,
            None => "unknown"@,
        }) + " ---\n"@ + page_text(
            content,
            origin,
            OutputOptions { content_boundaries: false, ..options },
        ) + "\n--- END_AGENT_BROWSER_PAGE_CONTENT nonce=wasm ---"@,
        options.max_output matches Some(l) ==> (content.len() > l ==> page_text(
            content,
            origin,
            OutputOptions { content_boundaries: false, ..options },
        ) == content.take(l as int) + "\n[truncated: showing "@ + crate::text::decimal(l as nat)
            + " of "@ + crate::text::decimal(content.len()) + " chars. Use --max-output to adjust]"@),
        (options.max_output is None || (options.max_output matches Some(l) && content.len() <= l))
            ==> page_text(content, origin, OutputOptions { content_boundaries: false, ..options })
            == content,
{
}

/// A successful reply printed as text (not as JSON) prints the page content
/// it carries: its `snapshot` when it has no `url` or `cdpUrl`; its `text`
/// when it has none of those and no `title`; its `html` when it has none of
/// those and no `text`. Each is printed as page content, with the reply's
/// `origin` and the output options; never as a dump of the data.
pub proof fn lemma_page_replies_print_content(
    response: Response,
    d: JsonValue,
    action: Option<Seq<char>>,
    options: OutputOptions,
)
    requires
        !options.json,
        response.success,
        response.data == Some(d),
        member_str(d, "url"@) is None,
        member_str(d, "cdpUrl"@) is None,
    ensures
        member_str(d, "snapshot"@) matches Some(s) ==> response_format(response, action, options)
            == FormatModel::Print(page_text(s, member_str(d, "origin"@), options)),
        member_str(d, "text"@) matches Some(t) ==> (member_str(d, "snapshot"@) is None
            && member_str(d, "title"@) is None ==> response_format(response, action, options)
            == FormatModel::Print(page_text(t, member_str(d, "origin"@), options))),
        member_str(d, "html"@) matches Some(h) ==> (member_str(d, "snapshot"@) is None
            && member_str(d, "title"@) is None && member_str(d, "text"@) is None
            ==> response_format(response, action, options) == FormatModel::Print(
            page_text(h, member_str(d, "origin"@), options),
        )),
{
}

/// Closing every session is not available in the browser build: a command
/// `close`, `quit` or `exit` with `--all` among its arguments stops with
/// that message. So does each native-only command (`install`, `upgrade`,
/// `doctor`, `dashboard`, `profiles`, `skills`, `session`, `chat`), named in
/// its message.
pub proof fn lemma_unavailable_commands(clean: Seq<String>)
    requires
        clean.len() > 0,
    ensures
        (clean[0]@ == "close"@ || clean[0]@ == "quit"@ || clean[0]@ == "exit"@) && (exists|j: int|
            0 <= j < clean.len() && #[trigger] clean[j]@ == "--all"@) ==> unavailable_message(
            clean,
        ) == Some("Command is not available in the browser build: close --all"@),
        (clean[0]@ == "install"@ || clean[0]@ == "upgrade"@ || clean[0]@ == "doctor"@
            || clean[0]@ == "dashboard"@ || clean[0]@ == "profiles"@ || clean[0]@ == "skills"@
            || clean[0]@ == "session"@ || clean[0]@ == "chat"@) ==> unavailable_message(clean)
            == Some("Command is not available in the browser build: "@ + clean[0]@),
{
    reveal_strlit("close");
    reveal_strlit("quit");
    reveal_strlit("exit");
    reveal_strlit("install");
    reveal_strlit("upgrade");
    reveal_strlit("doctor");
    reveal_strlit("dashboard");
    reveal_strlit("profiles");
    reveal_strlit("skills");
    reveal_strlit("session");
    reveal_strlit("chat");
    let c = clean[0]@;
    if c == "close"@ || c == "quit"@ || c == "exit"@ {
        assert(c != "install"@ && c != "upgrade"@ && c != "doctor"@ && c != "dashboard"@ && c
            != "profiles"@ && c != "skills"@ && c != "session"@ && c != "chat"@) by {
            if c == "close"@ {
                assert(c[0] == 'c' && c[1] == 'l');
                assert("chat"@[1] == 'h');
            } else if c == "quit"@ {
                assert(c[0] == 'q');
            } else {
                assert(c[0] == 'e');
            }
        }
    }
}

} // verus!

verus! {

proof fn lemma_scan_lands(a: Seq<String>, rest: Seq<String>, i: int, f: FlagsModel) -> (g:
    FlagsModel)
    requires
        0 <= i <= a.len(),
        a.len() > 0 ==> !takes_value(a.last()@),
        rest.len() > 0,
        rest[0]@.len() > 0,
        rest[0]@[0] == '-',
    ensures
        scan_flags(a + rest, i, f) == scan_flags(a + rest, a.len() as int, g),
    decreases a.len() - i,
{
    reveal_strlit("--content-boundaries");
    reveal_strlit("--json");
    reveal_strlit("true");
    reveal_strlit("false");
    let args = a + rest;
    assert(args[a.len() as int] == rest[0]);
    if i == a.len() {
        f
    } else {
        let x = args[i]@;
        assert(args[i] == a[i]);
        if i == a.len() - 1 {
            assert(a.last() == a[i]);
            let s = args[i + 1]@;
            assert(s == rest[0]@);
            assert(s != "true"@ && s != "false"@) by {
                assert(s[0] == '-');
            }
            assert(crate::text::digit_value(s[0]) is None);
            assert(next_usize(args, i) is None) by {
                assert(s[0] == '-');
                assert(!crate::text::all_digits(s));
            }
        }
        if x == "--json"@ {
            let (v, used) = bool_arg(args, i);
            lemma_scan_lands(a, rest, if used { i + 2 } else { i + 1 }, FlagsModel { json: v, ..f })
        } else if x == "--content-boundaries"@ {
            let (v, used) = bool_arg(args, i);
            lemma_scan_lands(
                a,
                rest,
                if used { i + 2 } else { i + 1 },
                FlagsModel { content_boundaries: v, ..f },
            )
        } else if x == "--max-output"@ {
            match next_usize(args, i) {
                Some(v) => lemma_scan_lands(a, rest, i + 2, FlagsModel { max_output: Some(v), ..f }),
                None => lemma_scan_lands(a, rest, i + 1, f),
            }
        } else if x == "--cdp"@ && i + 1 < args.len() {
            lemma_scan_lands(a, rest, i + 2, FlagsModel { cdp: Some(args[i + 1]@), ..f })
        } else if x == "--session"@ && i + 1 < args.len() {
            lemma_scan_lands(a, rest, i + 2, FlagsModel { session: args[i + 1]@, ..f })
        } else if x == "--input-mode"@ && i + 1 < args.len() {
            lemma_scan_lands(a, rest, i + 2, FlagsModel { input_mode: args[i + 1]@, ..f })
        } else if x == "-v"@ || x == "--verbose"@ {
            lemma_scan_lands(a, rest, i + 1, FlagsModel { verbose: true, ..f })
        } else if x == "-q"@ || x == "--quiet"@ {
            lemma_scan_lands(a, rest, i + 1, FlagsModel { quiet: true, ..f })
        } else {
            lemma_scan_lands(a, rest, i + 1, f)
        }
    }
}

/// No argument from `j` on is `w`.
pub open spec fn absent_from(args: Seq<String>, j: int, w: Seq<char>) -> bool {
    forall|k: int| j <= k < args.len() ==> #[trigger] args[k]@ != w
}

proof fn lemma_flags_kept(args: Seq<String>, j: int, f: FlagsModel)
    requires
        0 <= j,
    ensures
        absent_from(args, j, "--content-boundaries"@) ==> scan_flags(args, j, f).content_boundaries
            == f.content_boundaries,
        absent_from(args, j, "--json"@) ==> scan_flags(args, j, f).json == f.json,
        absent_from(args, j, "--max-output"@) ==> scan_flags(args, j, f).max_output
            == f.max_output,
        absent_from(args, j, "--cdp"@) ==> scan_flags(args, j, f).cdp == f.cdp,
        absent_from(args, j, "--session"@) ==> scan_flags(args, j, f).session == f.session,
        absent_from(args, j, "--input-mode"@) ==> scan_flags(args, j, f).input_mode
            == f.input_mode,
        f.verbose ==> scan_flags(args, j, f).verbose,
        f.quiet ==> scan_flags(args, j, f).quiet,
    decreases args.len() - j,
{
    if j < args.len() {
        let x = args[j]@;
        let next = if x == "--json"@ {
            let (v, used) = bool_arg(args, j);
            let g = FlagsModel { json: v, ..f };
            let n = if used { j + 2 } else { j + 1 };
            lemma_flags_kept(args, n, g);
            n
        } else if x == "--content-boundaries"@ {
            let (v, used) = bool_arg(args, j);
            let n = if used { j + 2 } else { j + 1 };
            lemma_flags_kept(args, n, FlagsModel { content_boundaries: v, ..f });
            n
        } else if x == "--max-output"@ {
            match next_usize(args, j) {
                Some(v) => {
                    lemma_flags_kept(args, j + 2, FlagsModel { max_output: Some(v), ..f });
                    j + 2
                },
                None => {
                    lemma_flags_kept(args, j + 1, f);
                    j + 1
                },
            }
        } else if x == "--cdp"@ && j + 1 < args.len() {
            lemma_flags_kept(args, j + 2, FlagsModel { cdp: Some(args[j + 1]@), ..f });
            j + 2
        } else if x == "--session"@ && j + 1 < args.len() {
            lemma_flags_kept(args, j + 2, FlagsModel { session: args[j + 1]@, ..f });
            j + 2
        } else if x == "--input-mode"@ && j + 1 < args.len() {
            lemma_flags_kept(args, j + 2, FlagsModel { input_mode: args[j + 1]@, ..f });
            j + 2
        } else if x == "-v"@ || x == "--verbose"@ {
            lemma_flags_kept(args, j + 1, FlagsModel { verbose: true, ..f });
            j + 1
        } else if x == "-q"@ || x == "--quiet"@ {
            lemma_flags_kept(args, j + 1, FlagsModel { quiet: true, ..f });
            j + 1
        } else {
            lemma_flags_kept(args, j + 1, f);
            j + 1
        };
        assert(next == j + 1 || next == j + 2);
        assert forall|w: Seq<char>| absent_from(args, j, w) implies #[trigger] absent_from(
            args,
            next,
            w,
        ) by {
            assert forall|k: int| next <= k < args.len() implies #[trigger] args[k]@ != w by {
                assert(args[k]@ != w);
            }
        }
        assert(absent_from(args, j, "--content-boundaries"@) ==> absent_from(args, next, "--content-boundaries"@));
        assert(absent_from(args, j, "--json"@) ==> absent_from(args, next, "--json"@));
        assert(absent_from(args, j, "--max-output"@) ==> absent_from(args, next, "--max-output"@));
        assert(absent_from(args, j, "--cdp"@) ==> absent_from(args, next, "--cdp"@));
        assert(absent_from(args, j, "--session"@) ==> absent_from(args, next, "--session"@));
        assert(absent_from(args, j, "--input-mode"@) ==> absent_from(args, next, "--input-mode"@));
    }
}

/// A boolean flag takes the value given after it: after any arguments that
/// do not end in a flag waiting for its value, `--content-boundaries` (or
/// `--json`) followed by `true` or `false` sets that flag to that value,
/// unless the flag is given again later.
pub proof fn lemma_bool_flag_takes_value(
    a: Seq<String>,
    flag: String,
    value: String,
    b: Seq<String>,
    f: FlagsModel,
)
    requires
        a.len() > 0 ==> !takes_value(a.last()@),
        flag@ == "--content-boundaries"@ || flag@ == "--json"@,
        value@ == "true"@ || value@ == "false"@,
        forall|k: int| 0 <= k < b.len() ==> #[trigger] b[k]@ != flag@,
    ensures
        flag@ == "--content-boundaries"@ ==> scan_flags(a + seq![flag, value] + b, 0, f).content_boundaries
            == (value@ == "true"@),
        flag@ == "--json"@ ==> scan_flags(a + seq![flag, value] + b, 0, f).json == (value@
            == "true"@),
{
    reveal_strlit("--content-boundaries");
    reveal_strlit("--json");
    reveal_strlit("true");
    reveal_strlit("false");
    let rest = seq![flag, value] + b;
    let args = a + rest;
    assert(a + seq![flag, value] + b =~= args);
    assert(rest[0] == flag);
    assert(flag@[0] == '-');
    let g = lemma_scan_lands(a, rest, 0, f);
    let n = a.len() as int;
    assert(args[n] == flag);
    assert(args[n + 1] == value);
    assert("true"@ != "false"@) by {
        assert("true"@.len() != "false"@.len());
    }
    assert("--content-boundaries"@ != "--json"@) by {
        assert("--content-boundaries"@.len() != "--json"@.len());
    }
    let v = value@ == "true"@;
    assert(bool_arg(args, n) == (v, true));
    let g2 = if flag@ == "--json"@ {
        FlagsModel { json: v, ..g }
    } else {
        FlagsModel { content_boundaries: v, ..g }
    };
    assert(scan_flags(args, n, g) == scan_flags(args, n + 2, g2));
    assert forall|k: int| n + 2 <= k < args.len() implies #[trigger] args[k]@ != flag@ by {
        assert(args[k] == b[k - n - 2]);
    }
    assert(absent_from(args, n + 2, flag@));
    lemma_flags_kept(args, n + 2, g2);
}

} // verus!

verus! {

/// How replies print, by what they carry: JSON output prints the whole
/// reply; a failure prints its error, or `Unknown error`; a success with no
/// data prints nothing. A reply with a `url` and a `title` is a page reached
/// (title and URL); with a `url` alone it prints the URL; with a `cdpUrl`
/// (and no `url`) the CDP URL; with a `title` and none of `url`, `cdpUrl`,
/// `snapshot` it prints the title; with a `value` and none of the page
/// members it prints the value; with a `count` and none of those it prints
/// the count in decimal.
pub proof fn lemma_reply_print_rules(
    response: Response,
    d: JsonValue,
    action: Option<Seq<char>>,
    options: OutputOptions,
)
    ensures
        options.json ==> response_format(response, action, options) == FormatModel::ResponseJson,
        !options.json && !response.success ==> response_format(response, action, options)
            == FormatModel::Failure(
            match response.error {
                Some(e) => e@,
                None => "Unknown error"@,
            },
        ),
        !options.json && response.success && response.data is None ==> response_format(
            response,
            action,
            options,
        ) == FormatModel::Print(Seq::empty()),
        !options.json && response.success && response.data == Some(d) ==> ({
            let url = member_str(d, "url"@);
            let title = member_str(d, "title"@);
            let none_above = url is None && member_str(d, "cdpUrl"@) is None && member_str(
                d,
                "snapshot"@,
            ) is None;
            let no_page = none_above && title is None && member_str(d, "text"@) is None
                && member_str(d, "html"@) is None;
            &&& url is Some && title is Some ==> response_format(response, action, options)
                == FormatModel::Navigated(title->0, url->0)
            &&& url is Some && title is None ==> response_format(response, action, options)
                == FormatModel::Print(url->0)
            &&& url is None && member_str(d, "cdpUrl"@) is Some ==> response_format(
                response,
                action,
                options,
            ) == FormatModel::Print(member_str(d, "cdpUrl"@)->0)
            &&& none_above && title is Some ==> response_format(response, action, options)
                == FormatModel::Print(title->0)
            &&& no_page && member_str(d, "value"@) is Some ==> response_format(
                response,
                action,
                options,
            ) == FormatModel::Print(member_str(d, "value"@)->0)
            &&& no_page && member_str(d, "value"@) is None && crate::json::member_i64(
                d,
                "count"@,
            ) is Some ==> response_format(response, action, options) == FormatModel::Print(
                crate::text::signed_decimal(crate::json::member_i64(d, "count"@)->0 as int),
            )
        }),
{
}

} // verus!

verus! {

proof fn lemma_flag_words_differ()
    ensures
        "--cdp"@ != "--json"@,
        "--cdp"@ != "--content-boundaries"@,
        "--cdp"@ != "--max-output"@,
        "--session"@ != "--json"@,
        "--session"@ != "--content-boundaries"@,
        "--session"@ != "--max-output"@,
        "--session"@ != "--cdp"@,
        "--input-mode"@ != "--json"@,
        "--input-mode"@ != "--content-boundaries"@,
        "--input-mode"@ != "--max-output"@,
        "--input-mode"@ != "--cdp"@,
        "--input-mode"@ != "--session"@,
        "--max-output"@ != "--json"@,
        "--max-output"@ != "--content-boundaries"@,
        "-v"@ != "--json"@ && "-v"@ != "--content-boundaries"@ && "-v"@ != "--max-output"@
            && "-v"@ != "--cdp"@ && "-v"@ != "--session"@ && "-v"@ != "--input-mode"@,
        "--verbose"@ != "--json"@ && "--verbose"@ != "--content-boundaries"@ && "--verbose"@
            != "--max-output"@ && "--verbose"@ != "--cdp"@ && "--verbose"@ != "--session"@
            && "--verbose"@ != "--input-mode"@,
        "-q"@ != "--json"@ && "-q"@ != "--content-boundaries"@ && "-q"@ != "--max-output"@
            && "-q"@ != "--cdp"@ && "-q"@ != "--session"@ && "-q"@ != "--input-mode"@ && "-q"@
            != "-v"@ && "-q"@ != "--verbose"@,
        "--quiet"@ != "--json"@ && "--quiet"@ != "--content-boundaries"@ && "--quiet"@
            != "--max-output"@ && "--quiet"@ != "--cdp"@ && "--quiet"@ != "--session"@
            && "--quiet"@ != "--input-mode"@ && "--quiet"@ != "-v"@ && "--quiet"@ != "--verbose"@,
{
    reveal_strlit("--json");
    reveal_strlit("--content-boundaries");
    reveal_strlit("--max-output");
    reveal_strlit("--cdp");
    reveal_strlit("--session");
    reveal_strlit("--input-mode");
    reveal_strlit("-v");
    reveal_strlit("--verbose");
    reveal_strlit("-q");
    reveal_strlit("--quiet");
    assert("--json"@.len() == 6);
    assert("--content-boundaries"@.len() == 20);
    assert("--max-output"@.len() == 12);
    assert("--cdp"@.len() == 5);
    assert("--session"@.len() == 9);
    assert("--input-mode"@.len() == 12);
    assert("-v"@.len() == 2);
    assert("--verbose"@.len() == 9);
    assert("-q"@.len() == 2);
    assert("--quiet"@.len() == 7);
    assert("--session"@[2] != "--verbose"@[2]);
    assert("--input-mode"@[2] != "--max-output"@[2]);
    assert("-q"@[1] != "-v"@[1]);
}

/// A flag that takes a value takes the argument after it, unless it is
/// given again later: after any arguments that do not end in a flag waiting
/// for its value, `--cdp u`, `--session s` or `--input-mode m` sets that
/// flag to the value given, and `--max-output n` sets the limit to `n` when
/// `n` is a number.
#[verifier::rlimit(40)]
pub proof fn lemma_value_flag_takes_value(
    a: Seq<String>,
    flag: String,
    value: String,
    b: Seq<String>,
    f: FlagsModel,
)
    requires
        a.len() > 0 ==> !takes_value(a.last()@),
        flag@ == "--cdp"@ || flag@ == "--session"@ || flag@ == "--input-mode"@ || flag@
            == "--max-output"@,
        absent_from(b, 0, flag@),
    ensures
        flag@ == "--cdp"@ ==> scan_flags(a + seq![flag, value] + b, 0, f).cdp == Some(value@),
        flag@ == "--session"@ ==> scan_flags(a + seq![flag, value] + b, 0, f).session == value@,
        flag@ == "--input-mode"@ ==> scan_flags(a + seq![flag, value] + b, 0, f).input_mode
            == value@,
        flag@ == "--max-output"@ ==> (crate::text::parse_usize_spec(value@) matches Some(n) ==> scan_flags(
            a + seq![flag, value] + b,
            0,
            f,
        ).max_output == Some(n as usize)),
{
    reveal_strlit("--cdp");
    reveal_strlit("--session");
    reveal_strlit("--input-mode");
    reveal_strlit("--max-output");
    lemma_flag_words_differ();
    let rest = seq![flag, value] + b;
    let args = a + rest;
    assert(a + seq![flag, value] + b =~= args);
    assert(rest[0] == flag);
    assert(flag@[0] == '-');
    let g = lemma_scan_lands(a, rest, 0, f);
    let n = a.len() as int;
    assert(args[n] == flag);
    assert(args[n + 1] == value);
    assert forall|k: int| n + 2 <= k < args.len() implies #[trigger] args[k]@ != flag@ by {
        assert(args[k] == b[k - n - 2]);
    }
    assert(absent_from(args, n + 2, flag@));
    assert(n + 1 < args.len());
    if flag@ == "--cdp"@ {
        assert(scan_flags(args, n, g) == scan_flags(args, n + 2, FlagsModel { cdp: Some(value@), ..g }));
        lemma_flags_kept(args, n + 2, FlagsModel { cdp: Some(value@), ..g });
    } else if flag@ == "--session"@ {
        assert(scan_flags(args, n, g) == scan_flags(args, n + 2, FlagsModel { session: value@, ..g }));
        lemma_flags_kept(args, n + 2, FlagsModel { session: value@, ..g });
    } else if flag@ == "--input-mode"@ {
        assert(scan_flags(args, n, g) == scan_flags(args, n + 2, FlagsModel { input_mode: value@, ..g }));
        lemma_flags_kept(args, n + 2, FlagsModel { input_mode: value@, ..g });
    } else {
        match crate::text::parse_usize_spec(value@) {
            Some(v) => {
                assert(next_usize(args, n) == Some(v as usize));
                assert(scan_flags(args, n, g) == scan_flags(args, n + 2, FlagsModel { max_output: Some(v as usize), ..g }));
                lemma_flags_kept(args, n + 2, FlagsModel { max_output: Some(v as usize), ..g });
            },
            None => {},
        }
    }
}

/// `-v` (or `--verbose`) turns verbose output on, and `-q` (or `--quiet`)
/// quiet output, wherever the scan meets them: after any arguments that do
/// not end in a flag waiting for its value, nothing later turns them off.
#[verifier::rlimit(40)]
pub proof fn lemma_switch_flags(a: Seq<String>, flag: String, b: Seq<String>, f: FlagsModel)
    requires
        a.len() > 0 ==> !takes_value(a.last()@),
        flag@ == "-v"@ || flag@ == "--verbose"@ || flag@ == "-q"@ || flag@ == "--quiet"@,
    ensures
        (flag@ == "-v"@ || flag@ == "--verbose"@) ==> scan_flags(a + seq![flag] + b, 0, f).verbose,
        (flag@ == "-q"@ || flag@ == "--quiet"@) ==> scan_flags(a + seq![flag] + b, 0, f).quiet,
{
    reveal_strlit("-v");
    reveal_strlit("--verbose");
    reveal_strlit("-q");
    reveal_strlit("--quiet");
    lemma_flag_words_differ();
    let rest = seq![flag] + b;
    let args = a + rest;
    assert(a + seq![flag] + b =~= args);
    assert(rest[0] == flag);
    assert(flag@[0] == '-');
    let g = lemma_scan_lands(a, rest, 0, f);
    let n = a.len() as int;
    assert(args[n] == flag);
    if flag@ == "-v"@ || flag@ == "--verbose"@ {
        assert(scan_flags(args, n, g) == scan_flags(args, n + 1, FlagsModel { verbose: true, ..g }));
        lemma_flags_kept(args, n + 1, FlagsModel { verbose: true, ..g });
    } else {
        assert(scan_flags(args, n, g) == scan_flags(args, n + 1, FlagsModel { quiet: true, ..g }));
        lemma_flags_kept(args, n + 1, FlagsModel { quiet: true, ..g });
    }
}

} // verus!
