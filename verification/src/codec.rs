//! Persistence codec.
//!
//! A collection is saved as a structured text document — an object with two
//! fields, `tasks` (the task objects in storage order) and `next_id` — and
//! loaded back from it. The exact shape is fixed by [`spec_render`]; the
//! parser additionally tolerates blank space between tokens, so documents
//! written with indentation load as well. Field order is fixed: a document
//! with reordered fields is rejected as malformed. A document that parses
//! but whose counter or ids break [`crate::tasks::wf_model`] is rejected as
//! inconsistent rather than silently accepted.
//!
//! Descriptions are stored as quoted strings; a quote, a backslash and
//! every control character are escaped, and the parser understands the
//! usual named escapes as well.

use vstd::prelude::*;

use crate::tasks::Priority;
use crate::tasks::Task;
use crate::tasks::TaskModel;
use crate::tasks::TaskStatus;
use crate::tasks::TodoList;
use crate::tasks::TodoModel;
use vstd::string::StrSliceExecFns;
use vstd::string::StringExecFns;

verus! {

broadcast use vstd::string::group_string_axioms;

/// Loading or saving failed: the document does not have the required shape
/// (`Malformed`), or it parses but its counter and ids contradict each
/// other (`InconsistentState`).
#[derive(Clone, Copy, Debug, PartialEq, Eq, Structural)]
pub enum PersistenceError {
    Malformed,
    InconsistentState,
}

/// The decimal digit characters.
pub open spec fn digit_char(d: int) -> char {
    if d == 0 { '0' }
    else if d == 1 { '1' }
    else if d == 2 { '2' }
    else if d == 3 { '3' }
    else if d == 4 { '4' }
    else if d == 5 { '5' }
    else if d == 6 { '6' }
    else if d == 7 { '7' }
    else if d == 8 { '8' }
    else { '9' }
}

/// The hexadecimal digit characters (lower case).
pub open spec fn hex_char(d: int) -> char {
    if d < 10 { digit_char(d) }
    else if d == 10 { 'a' }
    else if d == 11 { 'b' }
    else if d == 12 { 'c' }
    else if d == 13 { 'd' }
    else if d == 14 { 'e' }
    else { 'f' }
}

/// Decimal rendering of a number, most significant digit first.
pub open spec fn spec_render_nat(n: nat) -> Seq<char>
    decreases n,
{
    if n < 10 {
        seq![digit_char(n as int)]
    } else {
        spec_render_nat(n / 10) + seq![digit_char((n % 10) as int)]
    }
}

/// How one character of a description is written inside a quoted string:
/// quote and backslash get a backslash escape, control characters are
/// written as a four-digit hexadecimal escape, everything else stands as
/// itself.
pub open spec fn esc_char(c: char) -> Seq<char> {
    if c == '"' {
        seq!['\\', '"']
    } else if c == '\\' {
        seq!['\\', '\\']
    } else if (c as u32) < 32 {
        seq!['\\', 'u', '0', '0', hex_char((c as u32 / 16) as int), hex_char((c as u32 % 16) as int)]
    } else {
        seq![c]
    }
}

/// A description with every character escaped as [`esc_char`] says.
pub open spec fn spec_escape(s: Seq<char>) -> Seq<char>
    decreases s.len(),
{
    if s.len() == 0 {
        Seq::<char>::empty()
    } else {
        esc_char(s[0]) + spec_escape(s.drop_first())
    }
}

/// The canonical tag of a priority.
pub open spec fn priority_tag(p: Priority) -> Seq<char> {
    match p {
        Priority::Low => "Low"@,
        Priority::Medium => "Medium"@,
        Priority::High => "High"@,
    }
}

/// The canonical tag of a status.
pub open spec fn status_tag(s: TaskStatus) -> Seq<char> {
    match s {
        TaskStatus::Pending => "Pending"@,
        TaskStatus::Completed => "Completed"@,
    }
}

/// One task object: id, description, importance and status, in that order.
pub open spec fn spec_render_task(t: TaskModel) -> Seq<char> {
    "{\"id\":"@ + spec_render_nat(t.id) + ",\"description\":\""@ + spec_escape(t.description)
        + "\",\"importance\":\""@ + priority_tag(t.importance) + "\",\"status\":\""@ + status_tag(
        t.status,
    ) + "\"}"@
}

/// The task objects in storage order, separated by commas.
pub open spec fn spec_render_tasks(ts: Seq<TaskModel>) -> Seq<char>
    decreases ts.len(),
{
    if ts.len() == 0 {
        Seq::<char>::empty()
    } else if ts.len() == 1 {
        spec_render_task(ts[0])
    } else {
        spec_render_task(ts[0]) + seq![','] + spec_render_tasks(ts.drop_first())
    }
}

/// The whole document: the task array first, then the counter.
pub open spec fn spec_render(m: TodoModel) -> Seq<char> {
    "{\"tasks\":["@ + spec_render_tasks(m.tasks) + "],\"next_id\":"@ + spec_render_nat(m.next_id)
        + "}"@
}

/// Relies on `String::push`: appends the given character to the end of the
/// string.
#[verifier::external_body]
fn push_char(out: &mut String, c: char)
    ensures
        final (out)@ == old(out)@ + seq![c],
{
    out.push(c);
}

/// The decimal digit character for `d`.
fn digit_char_exec(d: u8) -> (c: char)
    requires
        d < 10,
    ensures
        c == digit_char(d as int),
{
    match d {
        0 => '0',
        1 => '1',
        2 => '2',
        3 => '3',
        4 => '4',
        5 => '5',
        6 => '6',
        7 => '7',
        8 => '8',
        _ => '9',
    }
}

/// The hexadecimal digit character for `d`.
fn hex_char_exec(d: u8) -> (c: char)
    requires
        d < 16,
    ensures
        c == hex_char(d as int),
{
    match d {
        0 => '0',
        1 => '1',
        2 => '2',
        3 => '3',
        4 => '4',
        5 => '5',
        6 => '6',
        7 => '7',
        8 => '8',
        9 => '9',
        10 => 'a',
        11 => 'b',
        12 => 'c',
        13 => 'd',
        14 => 'e',
        _ => 'f',
    }
}

/// Appends the decimal rendering of `n`.
fn render_usize(n: usize, out: &mut String)
    ensures
        final (out)@ == old(out)@ + spec_render_nat(n as nat),
    decreases n,
{
    if n < 10 {
        push_char(out, digit_char_exec(n as u8));
    } else {
        render_usize(n / 10, out);
        push_char(out, digit_char_exec((n % 10) as u8));
        proof {
            assert(final (out)@ =~= old(out)@ + spec_render_nat(n as nat));
        }
    }
}

/// Appends the characters of `s` from position `i` on, escaped.
fn render_escaped(s: &str, i: usize, n: usize, out: &mut String)
    requires
        n == s@.len(),
        i <= n,
    ensures
        final (out)@ == old(out)@ + spec_escape(s@.skip(i as int)),
    decreases n - i,
{
    if i == n {
        proof {
            assert(s@.skip(i as int) =~= Seq::<char>::empty());
        }
        return ;
    }
    let c = s.get_char(i);
    if c == '"' {
        push_char(out, '\\');
        push_char(out, '"');
    } else if c == '\\' {
        push_char(out, '\\');
        push_char(out, '\\');
    } else if (c as u32) < 32 {
        let v = c as u32;
        push_char(out, '\\');
        push_char(out, 'u');
        push_char(out, '0');
        push_char(out, '0');
        push_char(out, hex_char_exec((v / 16) as u8));
        push_char(out, hex_char_exec((v % 16) as u8));
    } else {
        push_char(out, c);
    }
    render_escaped(s, i + 1, n, out);
    proof {
        assert(s@.skip(i as int).drop_first() =~= s@.skip(i + 1));
        assert(s@.skip(i as int)[0] == c);
        assert(final (out)@ =~= old(out)@ + spec_escape(s@.skip(i as int)));
    }
}

/// Appends one task object.
fn render_task(t: &Task, out: &mut String)
    ensures
        final (out)@ == old(out)@ + spec_render_task(t@),
{
    out.append("{\"id\":");
    render_usize(t.id, out);
    out.append(",\"description\":\"");
    let d = t.description.as_str();
    let n = d.unicode_len();
    render_escaped(d, 0, n, out);
    out.append("\",\"importance\":\"");
    match t.importance {
        Priority::Low => out.append("Low"),
        Priority::Medium => out.append("Medium"),
        Priority::High => out.append("High"),
    }
    out.append("\",\"status\":\"");
    match t.status {
        TaskStatus::Pending => out.append("Pending"),
        TaskStatus::Completed => out.append("Completed"),
    }
    out.append("\"}");
    proof {
        assert(d@.skip(0) =~= d@);
        assert(final (out)@ =~= old(out)@ + spec_render_task(t@));
    }
}

/// Appends the task objects from position `i` on, separated by commas.
fn render_tasks(tasks: &Vec<Task>, i: usize, out: &mut String)
    requires
        i <= tasks.len(),
    ensures
        final (out)@ == old(out)@ + spec_render_tasks(
            tasks@.map_values(|t: Task| t@).skip(i as int),
        ),
    decreases tasks.len() - i,
{
    let ghost ts = tasks@.map_values(|t: Task| t@);
    if i == tasks.len() {
        proof {
            assert(ts.skip(i as int) =~= Seq::<TaskModel>::empty());
        }
        return ;
    }
    render_task(&tasks[i], out);
    if i + 1 < tasks.len() {
        push_char(out, ',');
        render_tasks(tasks, i + 1, out);
    }
    proof {
        assert(ts.skip(i as int)[0] == ts[i as int]);
        if i + 1 < tasks.len() {
            assert(ts.skip(i as int).drop_first() =~= ts.skip(i + 1));
            assert(ts.skip(i as int).len() >= 2);
        } else {
            assert(ts.skip(i as int).len() == 1);
        }
        assert(final (out)@ =~= old(out)@ + spec_render_tasks(ts.skip(i as int)));
    }
}

impl TodoList {
    /// The document that stands for this collection: the tasks in storage
    /// order, then the counter, in the exact shape of [`spec_render`].
    pub fn to_json(&self) -> (r: String)
        ensures
            r@ == spec_render(self@),
    {
        let mut out = String::new();
        out.append("{\"tasks\":[");
        render_tasks(&self.tasks, 0, &mut out);
        out.append("],\"next_id\":");
        render_usize(self.next_id, &mut out);
        out.append("}");
        proof {
            assert(self@.tasks.skip(0) =~= self@.tasks);
            assert(out@ =~= spec_render(self@));
        }
        out
    }
}

/// Blank space between tokens.
pub open spec fn is_ws(c: char) -> bool {
    c == ' ' || c == '\n' || c == '\r' || c == '\t'
}

/// First position at or after `i` that does not hold blank space.
pub open spec fn spec_skip_ws(s: Seq<char>, i: int) -> int
    decreases s.len() - i,
    when 0 <= i <= s.len()
{
    if i < s.len() && is_ws(s[i]) {
        spec_skip_ws(s, i + 1)
    } else {
        i
    }
}

/// The keyword `kw` stands at position `i` of `s`.
pub open spec fn spec_match_lit(s: Seq<char>, i: int, kw: Seq<char>) -> bool {
    0 <= i && i + kw.len() <= s.len() && s.subrange(i, i + kw.len() as int) == kw
}

/// The character `c` stands at position `i` of `s`.
pub open spec fn spec_expect(s: Seq<char>, i: int, c: char) -> bool {
    0 <= i < s.len() && s[i] == c
}

/// Value of a decimal digit character, -1 for any other character.
pub open spec fn digit_value(c: char) -> int {
    if c == '0' { 0 }
    else if c == '1' { 1 }
    else if c == '2' { 2 }
    else if c == '3' { 3 }
    else if c == '4' { 4 }
    else if c == '5' { 5 }
    else if c == '6' { 6 }
    else if c == '7' { 7 }
    else if c == '8' { 8 }
    else if c == '9' { 9 }
    else { -1 }
}

/// `c` is a decimal digit.
pub open spec fn is_digit(c: char) -> bool {
    digit_value(c) >= 0
}

/// Value of a hexadecimal digit character of either case, -1 otherwise.
pub open spec fn hex_value(c: char) -> int {
    if is_digit(c) { digit_value(c) }
    else if c == 'a' || c == 'A' { 10 }
    else if c == 'b' || c == 'B' { 11 }
    else if c == 'c' || c == 'C' { 12 }
    else if c == 'd' || c == 'D' { 13 }
    else if c == 'e' || c == 'E' { 14 }
    else if c == 'f' || c == 'F' { 15 }
    else { -1 }
}

/// First position at or after `i` that does not hold a decimal digit.
pub open spec fn spec_digits_end(s: Seq<char>, i: int) -> int
    decreases s.len() - i,
    when 0 <= i <= s.len()
{
    if i < s.len() && is_digit(s[i]) {
        spec_digits_end(s, i + 1)
    } else {
        i
    }
}

/// Value of a run of decimal digits, most significant first.
pub open spec fn spec_digits_val(ds: Seq<char>) -> int
    decreases ds.len(),
{
    if ds.len() == 0 {
        0
    } else {
        spec_digits_val(ds.drop_last()) * 10 + digit_value(ds.last())
    }
}

/// A machine-sized number at position `i`: the value of the maximal digit
/// run starting there, refused when the run is empty or the value does not
/// fit the machine word.
pub open spec fn spec_parse_usize(s: Seq<char>, i: int) -> Option<(int, int)> {
    let e = spec_digits_end(s, i);
    if e == i {
        None
    } else {
        let v = spec_digits_val(s.subrange(i, e));
        if v <= usize::MAX as int {
            Some((v, e))
        } else {
            None
        }
    }
}

/// The character written by a single-letter backslash escape.
pub open spec fn named_escape(e: char) -> Option<char> {
    if e == '"' { Some('"') }
    else if e == '\\' { Some('\\') }
    else if e == '/' { Some('/') }
    else if e == 'n' { Some('\n') }
    else if e == 't' { Some('\t') }
    else if e == 'r' { Some('\r') }
    else if e == 'b' { Some('\u{8}') }
    else if e == 'f' { Some('\u{c}') }
    else { None }
}

/// Content of a quoted string from position `i` (just after the opening
/// quote) to its closing quote: plain characters stand for themselves,
/// backslash escapes are decoded (four-digit escapes only up to 127), and
/// raw control characters are refused.
pub open spec fn spec_parse_str_content(s: Seq<char>, i: int) -> Option<(Seq<char>, int)>
    decreases s.len() - i,
    when 0 <= i <= s.len()
{
    if i >= s.len() {
        None
    } else if s[i] == '"' {
        Some((Seq::<char>::empty(), i + 1))
    } else if s[i] == '\\' {
        if i + 1 >= s.len() {
            None
        } else {
            let e = s[i + 1];
            if e == 'u' {
                if i + 6 <= s.len() && hex_value(s[i + 2]) >= 0 && hex_value(s[i + 3]) >= 0
                    && hex_value(s[i + 4]) >= 0 && hex_value(s[i + 5]) >= 0 {
                    let v = ((hex_value(s[i + 2]) * 16 + hex_value(s[i + 3])) * 16 + hex_value(
                        s[i + 4],
                    )) * 16 + hex_value(s[i + 5]);
                    if v < 128 {
                        match spec_parse_str_content(s, i + 6) {
                            Some(tail) => Some((seq![(v as u8) as char] + tail.0, tail.1)),
                            None => None,
                        }
                    } else {
                        None
                    }
                } else {
                    None
                }
            } else {
                match named_escape(e) {
                    Some(c) => match spec_parse_str_content(s, i + 2) {
                        Some(tail) => Some((seq![c] + tail.0, tail.1)),
                        None => None,
                    },
                    None => None,
                }
            }
        }
    } else if (s[i] as u32) < 32 {
        None
    } else {
        match spec_parse_str_content(s, i + 1) {
            Some(tail) => Some((seq![s[i]] + tail.0, tail.1)),
            None => None,
        }
    }
}

/// A quoted string starting at position `i`.
pub open spec fn spec_parse_string(s: Seq<char>, i: int) -> Option<(Seq<char>, int)> {
    if 0 <= i < s.len() && s[i] == '"' {
        spec_parse_str_content(s, i + 1)
    } else {
        None
    }
}

/// A quoted priority tag at position `i`.
pub open spec fn spec_parse_priority(s: Seq<char>, i: int) -> Option<(Priority, int)> {
    if spec_match_lit(s, i, "\"Low\""@) {
        Some((Priority::Low, i + "\"Low\""@.len()))
    } else if spec_match_lit(s, i, "\"Medium\""@) {
        Some((Priority::Medium, i + "\"Medium\""@.len()))
    } else if spec_match_lit(s, i, "\"High\""@) {
        Some((Priority::High, i + "\"High\""@.len()))
    } else {
        None
    }
}

/// A quoted status tag at position `i`.
pub open spec fn spec_parse_status(s: Seq<char>, i: int) -> Option<(TaskStatus, int)> {
    if spec_match_lit(s, i, "\"Pending\""@) {
        Some((TaskStatus::Pending, i + "\"Pending\""@.len()))
    } else if spec_match_lit(s, i, "\"Completed\""@) {
        Some((TaskStatus::Completed, i + "\"Completed\""@.len()))
    } else {
        None
    }
}

/// One task object starting at position `i`: braces around the four fields
/// `id`, `description`, `importance` and `status`, in that order, with
/// blank space tolerated between tokens.
pub open spec fn spec_parse_task(s: Seq<char>, i: int) -> Option<(TaskModel, int)> {
    if !spec_expect(s, i, '{') {
        None
    } else {
        let a = spec_skip_ws(s, i + 1);
        if !spec_match_lit(s, a, "\"id\""@) {
            None
        } else {
            let b = spec_skip_ws(s, a + "\"id\""@.len());
            if !spec_expect(s, b, ':') {
                None
            } else {
                let c0 = spec_skip_ws(s, b + 1);
                match spec_parse_usize(s, c0) {
                    None => None,
                    Some(idp) => {
                        let e0 = spec_skip_ws(s, idp.1);
                        if !spec_expect(s, e0, ',') {
                            None
                        } else {
                            let f0 = spec_skip_ws(s, e0 + 1);
                            if !spec_match_lit(s, f0, "\"description\""@) {
                                None
                            } else {
                                let g0 = spec_skip_ws(s, f0 + "\"description\""@.len());
                                if !spec_expect(s, g0, ':') {
                                    None
                                } else {
                                    let h0 = spec_skip_ws(s, g0 + 1);
                                    match spec_parse_string(s, h0) {
                                        None => None,
                                        Some(dp) => spec_parse_task_tail(s, i, idp.0, dp.0, dp.1),
                                    }
                                }
                            }
                        }
                    },
                }
            }
        }
    }
}

/// Rest of a task object after the description: the `importance` and
/// `status` fields and the closing brace.
pub open spec fn spec_parse_task_tail(
    s: Seq<char>,
    start: int,
    idv: int,
    desc: Seq<char>,
    i: int,
) -> Option<(TaskModel, int)> {
    let j0 = spec_skip_ws(s, i);
    if !spec_expect(s, j0, ',') {
        None
    } else {
        let k0 = spec_skip_ws(s, j0 + 1);
        if !spec_match_lit(s, k0, "\"importance\""@) {
            None
        } else {
            let l0 = spec_skip_ws(s, k0 + "\"importance\""@.len());
            if !spec_expect(s, l0, ':') {
                None
            } else {
                let m0 = spec_skip_ws(s, l0 + 1);
                match spec_parse_priority(s, m0) {
                    None => None,
                    Some(pp) => {
                        let o0 = spec_skip_ws(s, pp.1);
                        if !spec_expect(s, o0, ',') {
                            None
                        } else {
                            let p0 = spec_skip_ws(s, o0 + 1);
                            if !spec_match_lit(s, p0, "\"status\""@) {
                                None
                            } else {
                                let q0 = spec_skip_ws(s, p0 + "\"status\""@.len());
                                if !spec_expect(s, q0, ':') {
                                    None
                                } else {
                                    let r0 = spec_skip_ws(s, q0 + 1);
                                    match spec_parse_status(s, r0) {
                                        None => None,
                                        Some(sp) => {
                                            let t0 = spec_skip_ws(s, sp.1);
                                            if !spec_expect(s, t0, '}') {
                                                None
                                            } else {
                                                Some((
                                                    TaskModel {
                                                        id: idv as nat,
                                                        description: desc,
                                                        importance: pp.0,
                                                        status: sp.0,
                                                    },
                                                    t0 + 1,
                                                ))
                                            }
                                        },
                                    }
                                }
                            }
                        }
                    },
                }
            }
        }
    }
}

/// The task array from just after `[`: either a closing bracket right
/// away, or task objects separated by commas.
pub open spec fn spec_parse_tasks(s: Seq<char>, i: int) -> Option<(Seq<TaskModel>, int)> {
    let a = spec_skip_ws(s, i);
    if spec_expect(s, a, ']') {
        Some((Seq::<TaskModel>::empty(), a + 1))
    } else {
        match spec_parse_task(s, a) {
            None => None,
            Some(tp) => match spec_parse_more_tasks(s, tp.1) {
                None => None,
                Some(rp) => Some((seq![tp.0] + rp.0, rp.1)),
            },
        }
    }
}

/// Continuation of the task array after one task object: a closing
/// bracket, or a comma and a further task object.
pub open spec fn spec_parse_more_tasks(s: Seq<char>, i: int) -> Option<(Seq<TaskModel>, int)>
    decreases s.len() - i,
    when 0 <= i <= s.len()
{
    let a = spec_skip_ws(s, i);
    if spec_expect(s, a, ']') {
        Some((Seq::<TaskModel>::empty(), a + 1))
    } else if spec_expect(s, a, ',') {
        let b = spec_skip_ws(s, a + 1);
        match spec_parse_task(s, b) {
            None => None,
            Some(tp) => if i < tp.1 && tp.1 <= s.len() {
                match spec_parse_more_tasks(s, tp.1) {
                    None => None,
                    Some(rp) => Some((seq![tp.0] + rp.0, rp.1)),
                }
            } else {
                None
            },
        }
    } else {
        None
    }
}

/// The whole document: the `tasks` array, then the `next_id` counter,
/// with nothing but blank space after the closing brace.
pub open spec fn spec_parse_model(s: Seq<char>) -> Option<TodoModel> {
    let a = spec_skip_ws(s, 0);
    if !spec_expect(s, a, '{') {
        None
    } else {
        let b = spec_skip_ws(s, a + 1);
        if !spec_match_lit(s, b, "\"tasks\""@) {
            None
        } else {
            let c0 = spec_skip_ws(s, b + "\"tasks\""@.len());
            if !spec_expect(s, c0, ':') {
                None
            } else {
                let d0 = spec_skip_ws(s, c0 + 1);
                if !spec_expect(s, d0, '[') {
                    None
                } else {
                    match spec_parse_tasks(s, d0 + 1) {
                        None => None,
                        Some(tp) => {
                            let f0 = spec_skip_ws(s, tp.1);
                            if !spec_expect(s, f0, ',') {
                                None
                            } else {
                                let g0 = spec_skip_ws(s, f0 + 1);
                                if !spec_match_lit(s, g0, "\"next_id\""@) {
                                    None
                                } else {
                                    let h0 = spec_skip_ws(s, g0 + "\"next_id\""@.len());
                                    if !spec_expect(s, h0, ':') {
                                        None
                                    } else {
                                        let i0 = spec_skip_ws(s, h0 + 1);
                                        match spec_parse_usize(s, i0) {
                                            None => None,
                                            Some(np) => {
                                                let k0 = spec_skip_ws(s, np.1);
                                                if !spec_expect(s, k0, '}') {
                                                    None
                                                } else if spec_skip_ws(s, k0 + 1) == s.len() {
                                                    Some(TodoModel {
                                                        tasks: tp.0,
                                                        next_id: np.0 as nat,
                                                    })
                                                } else {
                                                    None
                                                }
                                            },
                                        }
                                    }
                                }
                            }
                        },
                    }
                }
            }
        }
    }
}

/// Everything up to the first non-digit is a digit, and the scan stops at
/// the first non-digit (or the end).
proof fn lemma_digits_end_props(s: Seq<char>, i: int)
    requires
        0 <= i <= s.len(),
    ensures
        i <= spec_digits_end(s, i) <= s.len(),
        forall|k: int| i <= k < spec_digits_end(s, i) ==> is_digit(#[trigger] s[k]),
        spec_digits_end(s, i) == s.len() || !is_digit(s[spec_digits_end(s, i)]),
    decreases s.len() - i,
{
    if i < s.len() && is_digit(s[i]) {
        lemma_digits_end_props(s, i + 1);
    }
}

/// The value of a digit run is never negative.
proof fn lemma_digits_val_nonneg(ds: Seq<char>)
    requires
        forall|k: int| 0 <= k < ds.len() ==> is_digit(#[trigger] ds[k]),
    ensures
        spec_digits_val(ds) >= 0,
    decreases ds.len(),
{
    if ds.len() > 0 {
        lemma_digits_val_nonneg(ds.drop_last());
    }
}

/// A digit run is worth at least any of its prefixes.
proof fn lemma_digits_val_take_mono(ds: Seq<char>, m: int)
    requires
        forall|k: int| 0 <= k < ds.len() ==> is_digit(#[trigger] ds[k]),
        0 <= m <= ds.len(),
    ensures
        spec_digits_val(ds.take(m)) <= spec_digits_val(ds),
    decreases ds.len() - m,
{
    if m == ds.len() {
        assert(ds.take(m) =~= ds);
    } else {
        lemma_digits_val_take_mono(ds, m + 1);
        assert(ds.take(m + 1).drop_last() =~= ds.take(m));
        assert(ds.take(m + 1).last() == ds[m]);
        lemma_digits_val_nonneg(ds.take(m));
    }
}

/// First position at or after `i` without blank space.
fn skip_ws(s: &str, i: usize, n: usize) -> (r: usize)
    requires
        n == s@.len(),
        i <= n,
    ensures
        r as int == spec_skip_ws(s@, i as int),
        i <= r <= n,
    decreases n - i,
{
    if i < n {
        let c = s.get_char(i);
        if c == ' ' || c == '\n' || c == '\r' || c == '\t' {
            return skip_ws(s, i + 1, n);
        }
    }
    i
}

/// Whether the character `c` stands at position `i`.
fn expect_ch(s: &str, i: usize, n: usize, c: char) -> (r: bool)
    requires
        n == s@.len(),
        i <= n,
    ensures
        r == spec_expect(s@, i as int, c),
{
    i < n && s.get_char(i) == c
}

/// Whether the keyword `kw` stands at position `i`.
fn match_lit(s: &str, i: usize, n: usize, kw: &str) -> (r: bool)
    requires
        n == s@.len(),
        i <= n,
    ensures
        r == spec_match_lit(s@, i as int, kw@),
{
    let m = kw.unicode_len();
    if m > n - i {
        return false;
    }
    let mut j: usize = 0;
    while j < m
        invariant
            j <= m,
            i + m <= n,
            n == s@.len(),
            m == kw@.len(),
            forall|k: int| 0 <= k < j ==> s@[i + k] == #[trigger] kw@[k],
        decreases m - j,
    {
        if s.get_char(i + j) != kw.get_char(j) {
            proof {
                assert(s@.subrange(i as int, i + m)[j as int] == s@[i + j]);
            }
            return false;
        }
        j = j + 1;
    }
    proof {
        assert(s@.subrange(i as int, i + m) =~= kw@);
    }
    true
}

/// The value of a decimal digit character.
fn digit_val_exec(c: char) -> (r: Option<u8>)
    ensures
        match r {
            Some(v) => v < 10 && digit_value(c) == v as int,
            None => digit_value(c) < 0,
        },
{
    match c {
        '0' => Some(0),
        '1' => Some(1),
        '2' => Some(2),
        '3' => Some(3),
        '4' => Some(4),
        '5' => Some(5),
        '6' => Some(6),
        '7' => Some(7),
        '8' => Some(8),
        '9' => Some(9),
        _ => None,
    }
}

/// The value of a hexadecimal digit character of either case.
fn hex_val_exec(c: char) -> (r: Option<u8>)
    ensures
        match r {
            Some(v) => v < 16 && hex_value(c) == v as int,
            None => hex_value(c) < 0,
        },
{
    match digit_val_exec(c) {
        Some(d) => Some(d),
        None => match c {
            'a' | 'A' => Some(10),
            'b' | 'B' => Some(11),
            'c' | 'C' => Some(12),
            'd' | 'D' => Some(13),
            'e' | 'E' => Some(14),
            'f' | 'F' => Some(15),
            _ => None,
        },
    }
}

/// First position at or after `i` without a decimal digit.
fn digits_end(s: &str, i: usize, n: usize) -> (r: usize)
    requires
        n == s@.len(),
        i <= n,
    ensures
        r as int == spec_digits_end(s@, i as int),
        i <= r <= n,
    decreases n - i,
{
    if i < n {
        if let Some(_d) = digit_val_exec(s.get_char(i)) {
            return digits_end(s, i + 1, n);
        }
    }
    i
}

/// A machine-sized number at position `i`, exactly as
/// [`spec_parse_usize`] says: the maximal digit run, refused when empty or
/// too large for the machine word.
fn parse_usize(s: &str, i: usize, n: usize) -> (r: Option<(usize, usize)>)
    requires
        n == s@.len(),
        i <= n,
    ensures
        match r {
            Some(p) => spec_parse_usize(s@, i as int) == Some((p.0 as int, p.1 as int)) && i < p.1
                <= n,
            None => spec_parse_usize(s@, i as int) is None,
        },
{
    let e = digits_end(s, i, n);
    proof {
        lemma_digits_end_props(s@, i as int);
    }
    if e == i {
        return None;
    }
    let ghost ds = s@.subrange(i as int, e as int);
    proof {
        assert(forall|k: int| 0 <= k < ds.len() ==> is_digit(#[trigger] ds[k]));
    }
    let mut acc: usize = 0;
    let mut k: usize = i;
    while k < e
        invariant
            i <= k <= e <= n,
            n == s@.len(),
            e as int == spec_digits_end(s@, i as int),
            ds == s@.subrange(i as int, e as int),
            forall|t: int| 0 <= t < ds.len() ==> is_digit(#[trigger] ds[t]),
            forall|t: int| i <= t < e ==> is_digit(#[trigger] s@[t]),
            acc as int == spec_digits_val(s@.subrange(i as int, k as int)),
        decreases e - k,
    {
        let c = s.get_char(k);
        let d = match digit_val_exec(c) {
            Some(d) => d,
            None => {
                proof {
                    assert(false);
                }
                return None;
            },
        };
        if acc > (usize::MAX - d as usize) / 10 {
            proof {
                let q = (usize::MAX - d as usize) / 10;
                assert(q * 10 <= (usize::MAX - d as usize));
                assert((usize::MAX - d as usize) < q * 10 + 10);
                assert(acc * 10 + d as usize > usize::MAX);
                assert(s@.subrange(i as int, k + 1).drop_last() =~= s@.subrange(i as int, k as int));
                assert(s@.subrange(i as int, k + 1).last() == s@[k as int]);
                assert(spec_digits_val(s@.subrange(i as int, k + 1)) > usize::MAX);
                assert(s@.subrange(i as int, k + 1) =~= ds.take(k + 1 - i));
                lemma_digits_val_take_mono(ds, k + 1 - i);
                assert(spec_digits_val(ds) > usize::MAX);
            }
            return None;
        }
        acc = acc * 10 + d as usize;
        proof {
            assert(s@.subrange(i as int, k + 1).drop_last() =~= s@.subrange(i as int, k as int));
            assert(s@.subrange(i as int, k + 1).last() == s@[k as int]);
        }
        k = k + 1;
    }
    proof {
        assert(s@.subrange(i as int, k as int) =~= ds);
    }
    Some((acc, e))
}

/// The character written by a single-letter backslash escape.
fn named_escape_exec(e: char) -> (r: Option<char>)
    ensures
        r == named_escape(e),
{
    match e {
        '"' => Some('"'),
        '\\' => Some('\\'),
        '/' => Some('/'),
        'n' => Some('\n'),
        't' => Some('\t'),
        'r' => Some('\r'),
        'b' => Some('\u{8}'),
        'f' => Some('\u{c}'),
        _ => None,
    }
}

/// Content of a quoted string from just after the opening quote, exactly
/// as [`spec_parse_str_content`] says.
fn parse_str_content(s: &str, i: usize, n: usize) -> (r: Option<(String, usize)>)
    requires
        n == s@.len(),
        i <= n,
    ensures
        match r {
            Some(p) => spec_parse_str_content(s@, i as int) == Some((p.0@, p.1 as int)) && i < p.1
                <= n,
            None => spec_parse_str_content(s@, i as int) is None,
        },
    decreases n - i,
{
    if i >= n {
        return None;
    }
    let c = s.get_char(i);
    if c == '"' {
        let out = String::new();
        return Some((out, i + 1));
    }
    if c == '\\' {
        if i + 1 >= n {
            return None;
        }
        let e = s.get_char(i + 1);
        if e == 'u' {
            if n - i < 6 {
                return None;
            }
            let h2 = match hex_val_exec(s.get_char(i + 2)) {
                Some(h) => h,
                None => { return None },
            };
            let h3 = match hex_val_exec(s.get_char(i + 3)) {
                Some(h) => h,
                None => { return None },
            };
            let h4 = match hex_val_exec(s.get_char(i + 4)) {
                Some(h) => h,
                None => { return None },
            };
            let h5 = match hex_val_exec(s.get_char(i + 5)) {
                Some(h) => h,
                None => { return None },
            };
            let v: u32 = ((h2 as u32 * 16 + h3 as u32) * 16 + h4 as u32) * 16 + h5 as u32;
            if v >= 128 {
                return None;
            }
            let ch = (v as u8) as char;
            match parse_str_content(s, i + 6, n) {
                None => None,
                Some(tail) => {
                    let mut out = String::new();
                    push_char(&mut out, ch);
                    out.append(tail.0.as_str());
                    proof {
                        assert(out@ =~= seq![ch] + tail.0@);
                    }
                    Some((out, tail.1))
                },
            }
        } else {
            let ce = match named_escape_exec(e) {
                Some(ce) => ce,
                None => { return None },
            };
            match parse_str_content(s, i + 2, n) {
                None => None,
                Some(tail) => {
                    let mut out = String::new();
                    push_char(&mut out, ce);
                    out.append(tail.0.as_str());
                    proof {
                        assert(out@ =~= seq![ce] + tail.0@);
                    }
                    Some((out, tail.1))
                },
            }
        }
    } else if (c as u32) < 32 {
        None
    } else {
        match parse_str_content(s, i + 1, n) {
            None => None,
            Some(tail) => {
                let mut out = String::new();
                push_char(&mut out, c);
                out.append(tail.0.as_str());
                proof {
                    assert(out@ =~= seq![c] + tail.0@);
                }
                Some((out, tail.1))
            },
        }
    }
}

/// A quoted string at position `i`.
fn parse_string(s: &str, i: usize, n: usize) -> (r: Option<(String, usize)>)
    requires
        n == s@.len(),
        i <= n,
    ensures
        match r {
            Some(p) => spec_parse_string(s@, i as int) == Some((p.0@, p.1 as int)) && i < p.1 <= n,
            None => spec_parse_string(s@, i as int) is None,
        },
{
    if i < n && s.get_char(i) == '"' {
        parse_str_content(s, i + 1, n)
    } else {
        None
    }
}

/// A quoted priority tag at position `i`.
fn parse_priority(s: &str, i: usize, n: usize) -> (r: Option<(Priority, usize)>)
    requires
        n == s@.len(),
        i <= n,
    ensures
        match r {
            Some(p) => spec_parse_priority(s@, i as int) == Some((p.0, p.1 as int)) && i < p.1
                <= n,
            None => spec_parse_priority(s@, i as int) is None,
        },
{
    proof {
        reveal_strlit("\"Low\"");
        reveal_strlit("\"Medium\"");
        reveal_strlit("\"High\"");
    }
    if match_lit(s, i, n, "\"Low\"") {
        Some((Priority::Low, i + "\"Low\"".unicode_len()))
    } else if match_lit(s, i, n, "\"Medium\"") {
        Some((Priority::Medium, i + "\"Medium\"".unicode_len()))
    } else if match_lit(s, i, n, "\"High\"") {
        Some((Priority::High, i + "\"High\"".unicode_len()))
    } else {
        None
    }
}

/// A quoted status tag at position `i`.
fn parse_status(s: &str, i: usize, n: usize) -> (r: Option<(TaskStatus, usize)>)
    requires
        n == s@.len(),
        i <= n,
    ensures
        match r {
            Some(p) => spec_parse_status(s@, i as int) == Some((p.0, p.1 as int)) && i < p.1 <= n,
            None => spec_parse_status(s@, i as int) is None,
        },
{
    proof {
        reveal_strlit("\"Pending\"");
        reveal_strlit("\"Completed\"");
    }
    if match_lit(s, i, n, "\"Pending\"") {
        Some((TaskStatus::Pending, i + "\"Pending\"".unicode_len()))
    } else if match_lit(s, i, n, "\"Completed\"") {
        Some((TaskStatus::Completed, i + "\"Completed\"".unicode_len()))
    } else {
        None
    }
}

/// One task object at position `i`, exactly as [`spec_parse_task`] says.
fn parse_task(s: &str, i: usize, n: usize) -> (r: Option<(Task, usize)>)
    requires
        n == s@.len(),
        i <= n,
    ensures
        match r {
            Some(p) => spec_parse_task(s@, i as int) == Some((p.0@, p.1 as int)) && i < p.1 <= n,
            None => spec_parse_task(s@, i as int) is None,
        },
{
    if !expect_ch(s, i, n, '{') {
        return None;
    }
    let a = skip_ws(s, i + 1, n);
    if !match_lit(s, a, n, "\"id\"") {
        return None;
    }
    let b = skip_ws(s, a + "\"id\"".unicode_len(), n);
    if !expect_ch(s, b, n, ':') {
        return None;
    }
    let c0 = skip_ws(s, b + 1, n);
    let idp = match parse_usize(s, c0, n) {
        Some(x) => x,
        None => { return None },
    };
    let e0 = skip_ws(s, idp.1, n);
    if !expect_ch(s, e0, n, ',') {
        return None;
    }
    let f0 = skip_ws(s, e0 + 1, n);
    if !match_lit(s, f0, n, "\"description\"") {
        return None;
    }
    let g0 = skip_ws(s, f0 + "\"description\"".unicode_len(), n);
    if !expect_ch(s, g0, n, ':') {
        return None;
    }
    let h0 = skip_ws(s, g0 + 1, n);
    let dp = match parse_string(s, h0, n) {
        Some(x) => x,
        None => { return None },
    };
    let j0 = skip_ws(s, dp.1, n);
    if !expect_ch(s, j0, n, ',') {
        return None;
    }
    let k0 = skip_ws(s, j0 + 1, n);
    if !match_lit(s, k0, n, "\"importance\"") {
        return None;
    }
    let l0 = skip_ws(s, k0 + "\"importance\"".unicode_len(), n);
    if !expect_ch(s, l0, n, ':') {
        return None;
    }
    let m0 = skip_ws(s, l0 + 1, n);
    let pp = match parse_priority(s, m0, n) {
        Some(x) => x,
        None => { return None },
    };
    let o0 = skip_ws(s, pp.1, n);
    if !expect_ch(s, o0, n, ',') {
        return None;
    }
    let p0 = skip_ws(s, o0 + 1, n);
    if !match_lit(s, p0, n, "\"status\"") {
        return None;
    }
    let q0 = skip_ws(s, p0 + "\"status\"".unicode_len(), n);
    if !expect_ch(s, q0, n, ':') {
        return None;
    }
    let r0 = skip_ws(s, q0 + 1, n);
    let sp = match parse_status(s, r0, n) {
        Some(x) => x,
        None => { return None },
    };
    let t0 = skip_ws(s, sp.1, n);
    if !expect_ch(s, t0, n, '}') {
        return None;
    }
    let t = Task { id: idp.0, description: dp.0, importance: pp.0, status: sp.0 };
    Some((t, t0 + 1))
}

/// Continuation of the task array after one task object, exactly as
/// [`spec_parse_more_tasks`] says.
fn parse_more_tasks(s: &str, i: usize, n: usize) -> (r: Option<(Vec<Task>, usize)>)
    requires
        n == s@.len(),
        i <= n,
    ensures
        match r {
            Some(p) => spec_parse_more_tasks(s@, i as int) == Some(
                (p.0@.map_values(|t: Task| t@), p.1 as int),
            ) && p.1 <= n,
            None => spec_parse_more_tasks(s@, i as int) is None,
        },
    decreases n - i,
{
    let a = skip_ws(s, i, n);
    if expect_ch(s, a, n, ']') {
        let v: Vec<Task> = Vec::new();
        proof {
            assert(v@.map_values(|t: Task| t@) =~= Seq::<TaskModel>::empty());
        }
        return Some((v, a + 1));
    }
    if !expect_ch(s, a, n, ',') {
        return None;
    }
    let b = skip_ws(s, a + 1, n);
    let tp = match parse_task(s, b, n) {
        Some(x) => x,
        None => { return None },
    };
    if !(i < tp.1) {
        return None;
    }
    let rp = match parse_more_tasks(s, tp.1, n) {
        Some(x) => x,
        None => { return None },
    };
    let ghost rest_models = rp.0@.map_values(|t: Task| t@);
    let mut v = rp.0;
    let ghost head = tp.0@;
    v.insert(0, tp.0);
    proof {
        assert(v@.map_values(|t: Task| t@) =~= seq![head] + rest_models);
    }
    Some((v, rp.1))
}

/// The task array from just after `[`, exactly as [`spec_parse_tasks`]
/// says.
fn parse_tasks(s: &str, i: usize, n: usize) -> (r: Option<(Vec<Task>, usize)>)
    requires
        n == s@.len(),
        i <= n,
    ensures
        match r {
            Some(p) => spec_parse_tasks(s@, i as int) == Some(
                (p.0@.map_values(|t: Task| t@), p.1 as int),
            ) && p.1 <= n,
            None => spec_parse_tasks(s@, i as int) is None,
        },
{
    let a = skip_ws(s, i, n);
    if expect_ch(s, a, n, ']') {
        let v: Vec<Task> = Vec::new();
        proof {
            assert(v@.map_values(|t: Task| t@) =~= Seq::<TaskModel>::empty());
        }
        return Some((v, a + 1));
    }
    let tp = match parse_task(s, a, n) {
        Some(x) => x,
        None => { return None },
    };
    let rp = match parse_more_tasks(s, tp.1, n) {
        Some(x) => x,
        None => { return None },
    };
    let ghost rest_models = rp.0@.map_values(|t: Task| t@);
    let ghost head = tp.0@;
    let mut v = rp.0;
    v.insert(0, tp.0);
    proof {
        assert(v@.map_values(|t: Task| t@) =~= seq![head] + rest_models);
    }
    Some((v, rp.1))
}

/// Whether tasks and counter make a well-formed collection: counter at
/// least 1, every id at least 1 and below the counter, neighbouring ids
/// strictly increasing.
fn check_wf(tasks: &Vec<Task>, next_id: usize) -> (r: bool)
    ensures
        r == crate::tasks::wf_model(
            TodoModel { tasks: tasks@.map_values(|t: Task| t@), next_id: next_id as nat },
        ),
{
    let ghost m = TodoModel { tasks: tasks@.map_values(|t: Task| t@), next_id: next_id as nat };
    if next_id < 1 {
        return false;
    }
    let len = tasks.len();
    let mut i: usize = 0;
    while i < len
        invariant
            i <= len,
            len == tasks.len(),
            next_id >= 1,
            m == (TodoModel { tasks: tasks@.map_values(|t: Task| t@), next_id: next_id as nat }),
            forall|k: int| 0 <= k < i ==> 1 <= (#[trigger] m.tasks[k]).id < m.next_id,
            forall|a: int, b: int| 0 <= a < b < i ==> m.tasks[a].id < m.tasks[b].id,
        decreases len - i,
    {
        if tasks[i].id < 1 || tasks[i].id >= next_id {
            proof {
                assert(m.tasks[i as int] == tasks@[i as int]@);
                assert(!(1 <= m.tasks[i as int].id < m.next_id));
            }
            return false;
        }
        if i > 0 {
            let prev = tasks[i - 1].id;
            if prev >= tasks[i].id {
                proof {
                    assert(m.tasks[i - 1] == tasks@[i - 1]@);
                    assert(m.tasks[i as int] == tasks@[i as int]@);
                    assert(!(m.tasks[i - 1].id < m.tasks[i as int].id));
                }
                return false;
            }
        }
        proof {
            assert forall|a: int, b: int| 0 <= a < b < i + 1 implies m.tasks[a].id
                < m.tasks[b].id by {
                if b == i && a < i - 1 {
                    assert(m.tasks[a].id < m.tasks[i - 1].id);
                }
            }
        }
        i = i + 1;
    }
    true
}

impl TodoList {
    /// Reconstructs a collection from a document in the shape of
    /// [`spec_render`] (blank space between tokens tolerated). A document
    /// that does not have that shape is refused as `Malformed`; one that
    /// parses but whose counter and ids contradict [`TodoList::wf`] — a
    /// stored id of 0, an id at or above the counter, or ids out of order —
    /// is refused as `InconsistentState` rather than silently accepted.
    pub fn from_json(s: &str) -> (r: Result<TodoList, PersistenceError>)
        ensures
            match r {
                Ok(list) => list.wf() && spec_parse_model(s@) == Some(list@),
                Err(e) => match spec_parse_model(s@) {
                    Option::None => e == PersistenceError::Malformed,
                    Option::Some(m) => !crate::tasks::wf_model(m) && e
                        == PersistenceError::InconsistentState,
                },
            },
    {
        let n = s.unicode_len();
        let a = skip_ws(s, 0, n);
        if !expect_ch(s, a, n, '{') {
            return Err(PersistenceError::Malformed);
        }
        let b = skip_ws(s, a + 1, n);
        if !match_lit(s, b, n, "\"tasks\"") {
            return Err(PersistenceError::Malformed);
        }
        let c0 = skip_ws(s, b + "\"tasks\"".unicode_len(), n);
        if !expect_ch(s, c0, n, ':') {
            return Err(PersistenceError::Malformed);
        }
        let d0 = skip_ws(s, c0 + 1, n);
        if !expect_ch(s, d0, n, '[') {
            return Err(PersistenceError::Malformed);
        }
        let tp = match parse_tasks(s, d0 + 1, n) {
            Some(x) => x,
            None => { return Err(PersistenceError::Malformed) },
        };
        let f0 = skip_ws(s, tp.1, n);
        if !expect_ch(s, f0, n, ',') {
            return Err(PersistenceError::Malformed);
        }
        let g0 = skip_ws(s, f0 + 1, n);
        if !match_lit(s, g0, n, "\"next_id\"") {
            return Err(PersistenceError::Malformed);
        }
        let h0 = skip_ws(s, g0 + "\"next_id\"".unicode_len(), n);
        if !expect_ch(s, h0, n, ':') {
            return Err(PersistenceError::Malformed);
        }
        let i0 = skip_ws(s, h0 + 1, n);
        let np = match parse_usize(s, i0, n) {
            Some(x) => x,
            None => { return Err(PersistenceError::Malformed) },
        };
        let k0 = skip_ws(s, np.1, n);
        if !expect_ch(s, k0, n, '}') {
            return Err(PersistenceError::Malformed);
        }
        if skip_ws(s, k0 + 1, n) != n {
            return Err(PersistenceError::Malformed);
        }
        if !check_wf(&tp.0, np.0) {
            return Err(PersistenceError::InconsistentState);
        }
        let list = TodoList { tasks: tp.0, next_id: np.0 };
        Ok(list)
    }
}

/// Every character of a rendered number is a digit, and there is at least
/// one.
proof fn lemma_render_nat_digits(n: nat)
    ensures
        spec_render_nat(n).len() >= 1,
        forall|k: int| 0 <= k < spec_render_nat(n).len() ==> is_digit(
            #[trigger] spec_render_nat(n)[k],
        ) && !is_ws(spec_render_nat(n)[k]),
    decreases n,
{
    if n >= 10 {
        lemma_render_nat_digits(n / 10);
    }
}

/// The digit scan stops exactly at `e` when everything before it is a
/// digit and `e` holds none (or is the end).
proof fn lemma_digits_end_at(s: Seq<char>, i: int, e: int)
    requires
        0 <= i <= e <= s.len(),
        forall|k: int| i <= k < e ==> is_digit(#[trigger] s[k]),
        e == s.len() || !is_digit(s[e]),
    ensures
        spec_digits_end(s, i) == e,
    decreases e - i,
{
    if i < e {
        lemma_digits_end_at(s, i + 1, e);
    }
}

/// A digit character reads back as its digit.
proof fn lemma_digit_char_value(d: int)
    requires
        0 <= d < 10,
    ensures
        digit_value(digit_char(d)) == d,
{
    if d == 0 {
    } else if d == 1 {
    } else if d == 2 {
    } else if d == 3 {
    } else if d == 4 {
    } else if d == 5 {
    } else if d == 6 {
    } else if d == 7 {
    } else if d == 8 {
    } else {
    }
}

/// Reading the digits of a rendered number gives the number back.
proof fn lemma_digits_val_render(n: nat)
    ensures
        spec_digits_val(spec_render_nat(n)) == n,
    decreases n,
{
    let r = spec_render_nat(n);
    assert(spec_digits_val(Seq::<char>::empty()) == 0);
    if n < 10 {
        assert(r.drop_last() =~= Seq::<char>::empty());
        assert(r.last() == digit_char(n as int));
        lemma_digit_char_value(n as int);
        assert(spec_digits_val(r) == spec_digits_val(r.drop_last()) * 10 + digit_value(r.last()));
    } else {
        lemma_digits_val_render(n / 10);
        assert(r.drop_last() =~= spec_render_nat(n / 10));
        assert(r.last() == digit_char((n % 10) as int));
        lemma_digit_char_value((n % 10) as int);
        assert(n == (n / 10) * 10 + n % 10) by {
            vstd::arithmetic::div_mod::lemma_fundamental_div_mod(n as int, 10);
        }
    }
}

/// A rendered number surrounded by other text parses back to the number:
/// if the digits of `n` stand at position `i` and the text goes on with a
/// non-digit, the number parser reads exactly them and yields `n`.
proof fn lemma_parse_render_nat(s: Seq<char>, i: int, n: nat)
    requires
        0 <= i,
        i + spec_render_nat(n).len() <= s.len(),
        s.subrange(i, i + spec_render_nat(n).len()) == spec_render_nat(n),
        i + spec_render_nat(n).len() == s.len() || !is_digit(s[i + spec_render_nat(n).len()]),
        n <= usize::MAX as nat,
    ensures
        spec_parse_usize(s, i) == Some((n as int, i + spec_render_nat(n).len())),
{
    let r = spec_render_nat(n);
    let e = i + r.len();
    lemma_render_nat_digits(n);
    assert forall|k: int| i <= k < e implies is_digit(#[trigger] s[k]) by {
        assert(s[k] == s.subrange(i, e)[k - i]);
    }
    lemma_digits_end_at(s, i, e);
    lemma_digits_val_render(n);
}

/// A hexadecimal digit character reads back as its value.
proof fn lemma_hex_char_value(x: int)
    requires
        0 <= x < 16,
    ensures
        hex_value(hex_char(x)) == x,
{
    if x < 10 {
        lemma_digit_char_value(x);
    } else if x == 10 {
    } else if x == 11 {
    } else if x == 12 {
    } else if x == 13 {
    } else if x == 14 {
    } else {
    }
}

/// An escaped description followed by its closing quote parses back to
/// exactly the description.
proof fn lemma_parse_render_str(s: Seq<char>, i: int, d: Seq<char>)
    requires
        0 <= i,
        i + spec_escape(d).len() + 1 <= s.len(),
        s.subrange(i, i + spec_escape(d).len()) == spec_escape(d),
        s[i + spec_escape(d).len()] == '"',
    ensures
        spec_parse_str_content(s, i) == Some((d, i + spec_escape(d).len() + 1)),
    decreases d.len(),
{
    let esc = spec_escape(d);
    if d.len() == 0 {
        assert(esc.len() == 0);
        assert(s[i] == '"');
    } else {
        let c = d[0];
        let ec = esc_char(c);
        let rest = spec_escape(d.drop_first());
        assert(esc == ec + rest);
        assert forall|k: int| i <= k < i + esc.len() implies #[trigger] s[k] == esc[k - i] by {
            assert(esc[k - i] == s.subrange(i, i + esc.len())[k - i]);
        }
        let i2 = i + ec.len();
        assert(s.subrange(i2, i2 + rest.len()) =~= rest);
        lemma_parse_render_str(s, i2, d.drop_first());
        assert(seq![c] + d.drop_first() =~= d);
        if c == '"' {
            assert(s[i] == '\\');
            assert(s[i + 1] == '"');
            assert(named_escape('"') == Some('"'));
        } else if c == '\\' {
            assert(s[i] == '\\');
            assert(s[i + 1] == '\\');
            assert(named_escape('\\') == Some('\\'));
        } else if (c as u32) < 32 {
            let cu = (c as u32) as int;
            assert(s[i] == '\\');
            assert(s[i + 1] == 'u');
            assert(s[i + 2] == '0');
            assert(s[i + 3] == '0');
            assert(s[i + 4] == hex_char(cu / 16));
            assert(s[i + 5] == hex_char(cu % 16));
            lemma_hex_char_value(cu / 16);
            lemma_hex_char_value(cu % 16);
            let v = ((hex_value(s[i + 2]) * 16 + hex_value(s[i + 3])) * 16 + hex_value(s[i + 4]))
                * 16 + hex_value(s[i + 5]);
            assert(v == (cu / 16) * 16 + cu % 16);
            assert(cu == (cu / 16) * 16 + cu % 16) by {
                vstd::arithmetic::div_mod::lemma_fundamental_div_mod(cu, 16);
            }
            assert(v == cu);
            assert((v as u8) as u32 == cu);
            vstd::utf8::char_u32_cast(c, c as u32);
            assert((v as u8) as char == c);
        } else {
            assert(s[i] == c);
        }
    }
}

/// A quoted canonical priority tag parses back to its priority.
proof fn lemma_parse_priority_at(s: Seq<char>, i: int, p: Priority)
    requires
        0 <= i,
        i + priority_tag(p).len() + 2 <= s.len(),
        s[i] == '"',
        s.subrange(i + 1, i + 1 + priority_tag(p).len()) == priority_tag(p),
        s[i + 1 + priority_tag(p).len()] == '"',
    ensures
        spec_parse_priority(s, i) == Some((p, i + priority_tag(p).len() + 2)),
{
    reveal_strlit("Low");
    reveal_strlit("Medium");
    reveal_strlit("High");
    reveal_strlit("\"Low\"");
    reveal_strlit("\"Medium\"");
    reveal_strlit("\"High\"");
    let tag = priority_tag(p);
    assert forall|k: int| i + 1 <= k < i + 1 + tag.len() implies #[trigger] s[k] == tag[k - i
        - 1] by {
        assert(tag[k - i - 1] == s.subrange(i + 1, i + 1 + tag.len())[k - i - 1]);
    }
    match p {
        Priority::Low => {
            assert(s.subrange(i, i + 5) =~= "\"Low\""@);
        },
        Priority::Medium => {
            assert(!spec_match_lit(s, i, "\"Low\""@)) by {
                if i + 5 <= s.len() {
                    assert(s.subrange(i, i + 5)[1] == s[i + 1]);
                }
            }
            assert(s.subrange(i, i + 8) =~= "\"Medium\""@);
        },
        Priority::High => {
            assert(!spec_match_lit(s, i, "\"Low\""@)) by {
                if i + 5 <= s.len() {
                    assert(s.subrange(i, i + 5)[1] == s[i + 1]);
                }
            }
            assert(!spec_match_lit(s, i, "\"Medium\""@)) by {
                if i + 8 <= s.len() {
                    assert(s.subrange(i, i + 8)[1] == s[i + 1]);
                }
            }
            assert(s.subrange(i, i + 6) =~= "\"High\""@);
        },
    }
}

/// A quoted canonical status tag parses back to its status.
proof fn lemma_parse_status_at(s: Seq<char>, i: int, st: TaskStatus)
    requires
        0 <= i,
        i + status_tag(st).len() + 2 <= s.len(),
        s[i] == '"',
        s.subrange(i + 1, i + 1 + status_tag(st).len()) == status_tag(st),
        s[i + 1 + status_tag(st).len()] == '"',
    ensures
        spec_parse_status(s, i) == Some((st, i + status_tag(st).len() + 2)),
{
    reveal_strlit("Pending");
    reveal_strlit("Completed");
    reveal_strlit("\"Pending\"");
    reveal_strlit("\"Completed\"");
    let tag = status_tag(st);
    assert forall|k: int| i + 1 <= k < i + 1 + tag.len() implies #[trigger] s[k] == tag[k - i
        - 1] by {
        assert(tag[k - i - 1] == s.subrange(i + 1, i + 1 + tag.len())[k - i - 1]);
    }
    match st {
        TaskStatus::Pending => {
            assert(s.subrange(i, i + 9) =~= "\"Pending\""@);
        },
        TaskStatus::Completed => {
            assert(!spec_match_lit(s, i, "\"Pending\""@)) by {
                if i + 9 <= s.len() {
                    assert(s.subrange(i, i + 9)[1] == s[i + 1]);
                }
            }
            assert(s.subrange(i, i + 11) =~= "\"Completed\""@);
        },
    }
}

/// The rendered rest of a task object — the `importance` and `status`
/// fields and the closing brace — parses back to exactly those fields.
#[verifier::rlimit(50)]
proof fn lemma_parse_task_tail_at(
    s: Seq<char>,
    start: int,
    idv: int,
    desc: Seq<char>,
    o4: int,
    p: Priority,
    st: TaskStatus,
)
    requires
        0 <= o4,
        idv >= 0,
        o4 + 16 + priority_tag(p).len() + 12 + status_tag(st).len() + 2 <= s.len(),
        s.subrange(
            o4,
            o4 + 16 + priority_tag(p).len() + 12 + status_tag(st).len() + 2,
        ) == "\",\"importance\":\""@ + priority_tag(p) + "\",\"status\":\""@ + status_tag(st)
            + "\"}"@,
    ensures
        spec_parse_task_tail(s, start, idv, desc, o4 + 1) == Some(
            (
                TaskModel { id: idv as nat, description: desc, importance: p, status: st },
                o4 + 16 + priority_tag(p).len() + 12 + status_tag(st).len() + 2,
            ),
        ),
{
    reveal_strlit("\",\"importance\":\"");
    reveal_strlit("\",\"status\":\"");
    reveal_strlit("\"}");
    reveal_strlit("\"importance\"");
    reveal_strlit("\"status\"");
    let ptag = priority_tag(p);
    let stag = status_tag(st);
    let tail = "\",\"importance\":\""@ + ptag + "\",\"status\":\""@ + stag + "\"}"@;
    assert("\",\"importance\":\""@.len() == 16);
    assert("\",\"status\":\""@.len() == 12);
    assert("\"}"@.len() == 2);
    let o6 = o4 + 16 + ptag.len();
    let o7 = o6 + 12 + stag.len();
    assert forall|k: int| o4 <= k < o4 + tail.len() implies #[trigger] s[k] == tail[k - o4] by {
        assert(tail[k - o4] == s.subrange(o4, o4 + tail.len())[k - o4]);
    }
    assert(s[o4 + 1] == ',');
    assert(s.subrange(o4 + 2, o4 + 14) =~= "\"importance\""@);
    assert(s[o4 + 14] == ':');
    assert(s[o4 + 15] == '"');
    assert(s.subrange(o4 + 16, o4 + 16 + ptag.len()) =~= ptag);
    assert(s[o6] == '"');
    assert(s[o6 + 1] == ',');
    assert(s.subrange(o6 + 2, o6 + 10) =~= "\"status\""@);
    assert(s[o6 + 10] == ':');
    assert(s[o6 + 11] == '"');
    assert(s.subrange(o6 + 12, o6 + 12 + stag.len()) =~= stag);
    assert(s[o7] == '"');
    assert(s[o7 + 1] == '}');
    assert(spec_skip_ws(s, o4 + 1) == o4 + 1);
    assert(spec_skip_ws(s, o4 + 2) == o4 + 2);
    assert(spec_match_lit(s, o4 + 2, "\"importance\""@));
    assert(spec_skip_ws(s, o4 + 14) == o4 + 14);
    assert(spec_skip_ws(s, o4 + 15) == o4 + 15);
    lemma_parse_priority_at(s, o4 + 15, p);
    assert(spec_parse_priority(s, o4 + 15) == Some((p, o6 + 1)));
    assert(spec_skip_ws(s, o6 + 1) == o6 + 1);
    assert(spec_skip_ws(s, o6 + 2) == o6 + 2);
    assert(spec_match_lit(s, o6 + 2, "\"status\""@));
    assert(spec_skip_ws(s, o6 + 10) == o6 + 10);
    assert(spec_skip_ws(s, o6 + 11) == o6 + 11);
    lemma_parse_status_at(s, o6 + 11, st);
    assert(spec_parse_status(s, o6 + 11) == Some((st, o7 + 1)));
    assert(spec_skip_ws(s, o7 + 1) == o7 + 1);
}

/// A rendered task object parses back to exactly its model, consuming
/// exactly its own characters.
#[verifier::rlimit(100)]
proof fn lemma_parse_render_task(s: Seq<char>, i: int, t: TaskModel)
    requires
        0 <= i,
        i + spec_render_task(t).len() <= s.len(),
        s.subrange(i, i + spec_render_task(t).len()) == spec_render_task(t),
        t.id <= usize::MAX as nat,
    ensures
        spec_parse_task(s, i) == Some((t, i + spec_render_task(t).len())),
{
    reveal_strlit("{\"id\":");
    reveal_strlit(",\"description\":\"");
    reveal_strlit("\",\"importance\":\"");
    reveal_strlit("\",\"status\":\"");
    reveal_strlit("\"}");
    reveal_strlit("\"id\"");
    reveal_strlit("\"description\"");
    reveal_strlit("\"importance\"");
    reveal_strlit("\"status\"");
    let num = spec_render_nat(t.id);
    let esc = spec_escape(t.description);
    let ptag = priority_tag(t.importance);
    let stag = status_tag(t.status);
    let rt = spec_render_task(t);
    assert("{\"id\":"@.len() == 6);
    assert(",\"description\":\""@.len() == 16);
    assert("\",\"importance\":\""@.len() == 16);
    assert("\",\"status\":\""@.len() == 12);
    assert("\"}"@.len() == 2);
    lemma_render_nat_digits(t.id);
    let o1 = i + 6;
    let o2 = o1 + num.len();
    let o3 = o2 + 16;
    let o4 = o3 + esc.len();
    let o6 = o4 + 16 + ptag.len();
    let o7 = o6 + 12 + stag.len();
    assert(rt.len() == 6 + num.len() + 16 + esc.len() + 16 + ptag.len() + 12 + stag.len() + 2);
    assert forall|k: int| i <= k < i + rt.len() implies #[trigger] s[k] == rt[k - i] by {
        assert(rt[k - i] == s.subrange(i, i + rt.len())[k - i]);
    }
    // the fixed characters around the four fields
    assert(s[i] == '{');
    assert(s.subrange(i + 1, i + 5) =~= "\"id\""@);
    assert(s[i + 5] == ':');
    assert(s.subrange(o1, o2) =~= num);
    assert(s[o2] == ',');
    assert(s.subrange(o2 + 1, o2 + 14) =~= "\"description\""@);
    assert(s[o2 + 14] == ':');
    assert(s[o2 + 15] == '"');
    assert(s.subrange(o3, o4) =~= esc);
    assert(s[o4] == '"');
    assert(s.subrange(o4, o4 + 16 + ptag.len() + 12 + stag.len() + 2) =~= (
        "\",\"importance\":\""@ + ptag + "\",\"status\":\""@ + stag + "\"}"@));
    // the parser walks exactly along those characters
    assert(spec_skip_ws(s, i + 1) == i + 1);
    assert(spec_match_lit(s, i + 1, "\"id\""@));
    assert(spec_skip_ws(s, i + 5) == i + 5);
    assert(spec_skip_ws(s, o1) == o1) by {
        assert(s[o1] == num[0]);
    }
    lemma_parse_render_nat(s, o1, t.id);
    assert(spec_skip_ws(s, o2) == o2);
    assert(spec_skip_ws(s, o2 + 1) == o2 + 1);
    assert(spec_match_lit(s, o2 + 1, "\"description\""@));
    assert(spec_skip_ws(s, o2 + 14) == o2 + 14);
    assert(spec_skip_ws(s, o2 + 15) == o2 + 15);
    lemma_parse_render_str(s, o3, t.description);
    assert(spec_parse_string(s, o2 + 15) == Some((t.description, o4 + 1)));
    lemma_parse_task_tail_at(s, i, t.id as int, t.description, o4, t.importance, t.status);
    let parsed = TaskModel {
        id: (t.id as int) as nat,
        description: t.description,
        importance: t.importance,
        status: t.status,
    };
    assert(parsed =~= t);
    assert(spec_parse_task(s, i) == Some((t, o7 + 2)));
}

/// What follows the first task object inside the rendered array: a comma
/// and an object for each further task.
spec fn tasks_tail(rest: Seq<TaskModel>) -> Seq<char>
    decreases rest.len(),
{
    if rest.len() == 0 {
        Seq::<char>::empty()
    } else {
        seq![','] + spec_render_task(rest[0]) + tasks_tail(rest.drop_first())
    }
}

/// A rendered nonempty array is its first object followed by the tail.
proof fn lemma_render_tasks_split(ts: Seq<TaskModel>)
    requires
        ts.len() >= 1,
    ensures
        spec_render_tasks(ts) == spec_render_task(ts[0]) + tasks_tail(ts.drop_first()),
    decreases ts.len(),
{
    if ts.len() >= 2 {
        lemma_render_tasks_split(ts.drop_first());
        assert(spec_render_tasks(ts) =~= spec_render_task(ts[0]) + tasks_tail(ts.drop_first()));
    } else {
        assert(spec_render_tasks(ts) =~= spec_render_task(ts[0]) + tasks_tail(ts.drop_first()));
    }
}

/// The rendered continuation of the array (commas, objects, closing
/// bracket) parses back to exactly the remaining tasks.
proof fn lemma_parse_more_at(s: Seq<char>, i: int, rest: Seq<TaskModel>)
    requires
        0 <= i,
        i + tasks_tail(rest).len() + 1 <= s.len(),
        s.subrange(i, i + tasks_tail(rest).len()) == tasks_tail(rest),
        s[i + tasks_tail(rest).len()] == ']',
        forall|k: int| 0 <= k < rest.len() ==> (#[trigger] rest[k]).id <= usize::MAX as nat,
    ensures
        spec_parse_more_tasks(s, i) == Some((rest, i + tasks_tail(rest).len() + 1)),
    decreases rest.len(),
{
    let tail = tasks_tail(rest);
    if rest.len() == 0 {
        assert(tail.len() == 0);
        assert(s[i] == ']');
        assert(rest =~= Seq::<TaskModel>::empty());
    } else {
        reveal_strlit("{\"id\":");
        let rt = spec_render_task(rest[0]);
        let sub = tasks_tail(rest.drop_first());
        assert(tail == seq![','] + rt + sub);
        assert forall|k: int| i <= k < i + tail.len() implies #[trigger] s[k] == tail[k - i] by {
            assert(tail[k - i] == s.subrange(i, i + tail.len())[k - i]);
        }
        assert(s[i] == ',');
        assert(rt[0] == '{');
        assert(s[i + 1] == '{');
        assert(spec_skip_ws(s, i + 1) == i + 1);
        assert(s.subrange(i + 1, i + 1 + rt.len()) =~= rt);
        lemma_parse_render_task(s, i + 1, rest[0]);
        let j = i + 1 + rt.len();
        assert(s.subrange(j, j + sub.len()) =~= sub);
        lemma_parse_more_at(s, j, rest.drop_first());
        assert(seq![rest[0]] + rest.drop_first() =~= rest);
    }
}

/// The rendered array body parses back to exactly the task sequence.
proof fn lemma_parse_tasks_at(s: Seq<char>, i: int, ts: Seq<TaskModel>)
    requires
        0 <= i,
        i + spec_render_tasks(ts).len() + 1 <= s.len(),
        s.subrange(i, i + spec_render_tasks(ts).len()) == spec_render_tasks(ts),
        s[i + spec_render_tasks(ts).len()] == ']',
        forall|k: int| 0 <= k < ts.len() ==> (#[trigger] ts[k]).id <= usize::MAX as nat,
    ensures
        spec_parse_tasks(s, i) == Some((ts, i + spec_render_tasks(ts).len() + 1)),
{
    let rts = spec_render_tasks(ts);
    if ts.len() == 0 {
        assert(rts.len() == 0);
        assert(s[i] == ']');
        assert(ts =~= Seq::<TaskModel>::empty());
    } else {
        reveal_strlit("{\"id\":");
        lemma_render_tasks_split(ts);
        let rt = spec_render_task(ts[0]);
        let sub = tasks_tail(ts.drop_first());
        assert forall|k: int| i <= k < i + rts.len() implies #[trigger] s[k] == rts[k - i] by {
            assert(rts[k - i] == s.subrange(i, i + rts.len())[k - i]);
        }
        assert(rt[0] == '{');
        assert(s[i] == '{');
        assert(spec_skip_ws(s, i) == i);
        assert(s.subrange(i, i + rt.len()) =~= rt);
        lemma_parse_render_task(s, i, ts[0]);
        let j = i + rt.len();
        assert(s.subrange(j, j + sub.len()) =~= sub);
        lemma_parse_more_at(s, j, ts.drop_first());
        assert(seq![ts[0]] + ts.drop_first() =~= ts);
    }
}

/// Saving and loading round-trip: the rendered document of any
/// well-formed collection parses back to exactly that collection — same
/// tasks with the same ids, descriptions, priorities and statuses in the
/// same storage order, and the same counter. Together with the contracts
/// of [`TodoList::to_json`] and [`TodoList::from_json`], saving a
/// collection and loading the saved text yields an equal collection.
#[verifier::rlimit(100)]
pub proof fn law_save_load_round_trip(m: TodoModel)
    requires
        crate::tasks::wf_model(m),
    ensures
        spec_parse_model(spec_render(m)) == Some(m),
{
    let s = spec_render(m);
    reveal_strlit("{\"tasks\":[");
    reveal_strlit("],\"next_id\":");
    reveal_strlit("}");
    reveal_strlit("\"tasks\"");
    reveal_strlit("\"next_id\"");
    let rts = spec_render_tasks(m.tasks);
    let num = spec_render_nat(m.next_id);
    assert("{\"tasks\":["@.len() == 10);
    assert("],\"next_id\":"@.len() == 12);
    assert("}"@.len() == 1);
    lemma_render_nat_digits(m.next_id);
    let q2 = 10 + rts.len() as int;
    let q3 = q2 + 12;
    let q4 = q3 + num.len() as int;
    assert(s.len() == q4 + 1);
    assert(s[0] == '{');
    assert(s.subrange(1, 8) =~= "\"tasks\""@);
    assert(s[8] == ':');
    assert(s[9] == '[');
    assert(s.subrange(10, q2) =~= rts);
    assert(s[q2] == ']');
    assert(s[q2 + 1] == ',');
    assert(s.subrange(q2 + 2, q2 + 11) =~= "\"next_id\""@);
    assert(s[q2 + 11] == ':');
    assert(s.subrange(q3, q4) =~= num);
    assert(s[q4] == '}');
    assert(spec_skip_ws(s, 0) == 0);
    assert(spec_skip_ws(s, 1) == 1);
    assert(spec_match_lit(s, 1, "\"tasks\""@));
    assert(spec_skip_ws(s, 8) == 8);
    assert(spec_skip_ws(s, 9) == 9);
    assert(forall|k: int|
        0 <= k < m.tasks.len() ==> (#[trigger] m.tasks[k]).id <= usize::MAX as nat);
    lemma_parse_tasks_at(s, 10, m.tasks);
    assert(spec_skip_ws(s, q2 + 1) == q2 + 1);
    assert(spec_skip_ws(s, q2 + 2) == q2 + 2);
    assert(spec_match_lit(s, q2 + 2, "\"next_id\""@));
    assert(spec_skip_ws(s, q2 + 11) == q2 + 11);
    assert(spec_skip_ws(s, q2 + 12) == q3) by {
        assert(s[q3] == num[0]);
    }
    lemma_parse_render_nat(s, q3, m.next_id);
    assert(spec_skip_ws(s, q4) == q4);
    assert(spec_skip_ws(s, q4 + 1) == q4 + 1);
    let parsed = TodoModel { tasks: m.tasks, next_id: (m.next_id as int) as nat };
    assert(parsed =~= m);
}

} // verus!
