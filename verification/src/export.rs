//! Export of the task list: a pretty-printed JSON array and a YAML
//! sequence, each entry carrying the three fields under lowercase names.
//! Field texts are written as double-quoted strings; the escapes used are
//! valid in JSON and in YAML double-quoted scalars alike.

use vstd::prelude::*;
use vstd::string::StrSliceExecFns;
use vstd::string::StringExecFns;
use crate::codec::bool_text;
use crate::task::{Task, TaskView, views_of};

verus! {

/// The lowercase hexadecimal digit for a value below sixteen.
pub open spec fn hex_digit_text(d: int) -> Seq<char> {
    if d == 0 {
        "0"@
    } else if d == 1 {
        "1"@
    } else if d == 2 {
        "2"@
    } else if d == 3 {
        "3"@
    } else if d == 4 {
        "4"@
    } else if d == 5 {
        "5"@
    } else if d == 6 {
        "6"@
    } else if d == 7 {
        "7"@
    } else if d == 8 {
        "8"@
    } else if d == 9 {
        "9"@
    } else if d == 10 {
        "a"@
    } else if d == 11 {
        "b"@
    } else if d == 12 {
        "c"@
    } else if d == 13 {
        "d"@
    } else if d == 14 {
        "e"@
    } else {
        "f"@
    }
}

/// What one character contributes to a double-quoted string: quotes,
/// backslashes and control characters are escaped, everything else is
/// written as it is.
pub open spec fn escape_char(c: char) -> Seq<char> {
    if c == '"' {
        "\\\""@
    } else if c == '\\' {
        "\\\\"@
    } else if c == '\n' {
        "\\n"@
    } else if c == '\r' {
        "\\r"@
    } else if c == '\t' {
        "\\t"@
    } else if c == '\u{8}' {
        "\\b"@
    } else if c == '\u{c}' {
        "\\f"@
    } else if (c as u32) < 32 {
        "\\u00"@ + hex_digit_text((c as u32) as int / 16) + hex_digit_text((c as u32) as int % 16)
    } else {
        seq![c]
    }
}

/// A whole text escaped for a double-quoted string.
pub open spec fn escaped_text(s: Seq<char>) -> Seq<char>
    decreases s.len(),
{
    if s.len() == 0 {
        Seq::empty()
    } else {
        escape_char(s[0]) + escaped_text(s.drop_first())
    }
}

/// Escaping one more character appends its contribution.
proof fn lemma_escaped_text_push(s: Seq<char>, c: char)
    ensures
        escaped_text(s.push(c)) == escaped_text(s) + escape_char(c),
    decreases s.len(),
{
    if s.len() == 0 {
        assert(s.push(c).drop_first() =~= Seq::<char>::empty());
        assert(escaped_text(Seq::<char>::empty()) == Seq::<char>::empty());
        assert(s.push(c)[0] == c);
        assert(escaped_text(s.push(c)) =~= escaped_text(s) + escape_char(c));
    } else {
        assert(s.push(c).drop_first() =~= s.drop_first().push(c));
        lemma_escaped_text_push(s.drop_first(), c);
        assert(escaped_text(s.push(c)) =~= escaped_text(s) + escape_char(c));
    }
}

/// One task as a pretty-printed JSON object, indented for a list entry.
pub open spec fn json_task_object(t: TaskView) -> Seq<char> {
    "  {\n    \"title\": \""@ + escaped_text(t.title) + "\",\n    \"description\": \""@
        + escaped_text(t.description) + "\",\n    \"completed\": "@ + bool_text(t.completed)
        + "\n  }"@
}

/// The task objects of a JSON array, separated by commas.
pub open spec fn json_objects(tasks: Seq<TaskView>) -> Seq<char>
    decreases tasks.len(),
{
    if tasks.len() == 0 {
        Seq::empty()
    } else if tasks.len() == 1 {
        json_task_object(tasks[0])
    } else {
        json_task_object(tasks[0]) + ",\n"@ + json_objects(tasks.drop_first())
    }
}

/// The whole JSON export: a pretty-printed array of task objects; an
/// empty list is the empty array.
pub open spec fn json_text(tasks: Seq<TaskView>) -> Seq<char> {
    if tasks.len() == 0 {
        "[]"@
    } else {
        "[\n"@ + json_objects(tasks) + "\n]"@
    }
}

/// One more object joins the array after a comma.
proof fn lemma_json_objects_push(tasks: Seq<TaskView>, t: TaskView)
    requires
        tasks.len() > 0,
    ensures
        json_objects(tasks.push(t)) == json_objects(tasks) + ",\n"@ + json_task_object(t),
    decreases tasks.len(),
{
    if tasks.len() == 1 {
        assert(tasks.push(t).drop_first() =~= seq![t]);
        assert(json_objects(seq![t]) == json_task_object(t));
        assert(json_objects(tasks.push(t)) =~= json_objects(tasks) + ",\n"@ + json_task_object(t));
    } else {
        assert(tasks.push(t).drop_first() =~= tasks.drop_first().push(t));
        lemma_json_objects_push(tasks.drop_first(), t);
        assert(json_objects(tasks.push(t)) =~= json_objects(tasks) + ",\n"@ + json_task_object(t));
    }
}

/// One task as a YAML sequence entry: a block mapping of the three fields.
pub open spec fn yaml_task_entry(t: TaskView) -> Seq<char> {
    "- title: \""@ + escaped_text(t.title) + "\"\n  description: \""@ + escaped_text(t.description)
        + "\"\n  completed: "@ + bool_text(t.completed) + "\n"@
}

/// The entries of the YAML sequence, one after another.
pub open spec fn yaml_entries(tasks: Seq<TaskView>) -> Seq<char>
    decreases tasks.len(),
{
    if tasks.len() == 0 {
        Seq::empty()
    } else {
        yaml_task_entry(tasks[0]) + yaml_entries(tasks.drop_first())
    }
}

/// The whole YAML export: a block sequence of task mappings; an empty
/// list is the empty flow sequence.
pub open spec fn yaml_text(tasks: Seq<TaskView>) -> Seq<char> {
    if tasks.len() == 0 {
        "[]\n"@
    } else {
        yaml_entries(tasks)
    }
}

/// One more entry joins the sequence at its end.
proof fn lemma_yaml_entries_push(tasks: Seq<TaskView>, t: TaskView)
    ensures
        yaml_entries(tasks.push(t)) == yaml_entries(tasks) + yaml_task_entry(t),
    decreases tasks.len(),
{
    if tasks.len() == 0 {
        assert(tasks.push(t).drop_first() =~= Seq::<TaskView>::empty());
        assert(yaml_entries(Seq::<TaskView>::empty()) == Seq::<char>::empty());
        assert(yaml_entries(tasks.push(t)) =~= yaml_entries(tasks) + yaml_task_entry(t));
    } else {
        assert(tasks.push(t).drop_first() =~= tasks.drop_first().push(t));
        lemma_yaml_entries_push(tasks.drop_first(), t);
        assert(yaml_entries(tasks.push(t)) =~= yaml_entries(tasks) + yaml_task_entry(t));
    }
}

/// The lowercase hexadecimal digit for a value below sixteen.
fn hex_digit_str(d: u32) -> (s: &'static str)
    requires
        d < 16,
    ensures
        s@ == hex_digit_text(d as int),
{
    if d == 0 {
        "0"
    } else if d == 1 {
        "1"
    } else if d == 2 {
        "2"
    } else if d == 3 {
        "3"
    } else if d == 4 {
        "4"
    } else if d == 5 {
        "5"
    } else if d == 6 {
        "6"
    } else if d == 7 {
        "7"
    } else if d == 8 {
        "8"
    } else if d == 9 {
        "9"
    } else if d == 10 {
        "a"
    } else if d == 11 {
        "b"
    } else if d == 12 {
        "c"
    } else if d == 13 {
        "d"
    } else if d == 14 {
        "e"
    } else {
        "f"
    }
}

/// Append `s`, escaped for a double-quoted string, to `out`.
fn push_escaped(out: &mut String, s: &str)
    ensures
        final(out)@ == old(out)@ + escaped_text(s@),
{
    let n = s.unicode_len();
    let mut i: usize = 0;
    proof {
        assert(s@.take(0) =~= Seq::<char>::empty());
        assert(old(out)@ + Seq::<char>::empty() =~= old(out)@);
    }
    while i < n
        invariant
            i <= n,
            n == s@.len(),
            out@ == old(out)@ + escaped_text(s@.take(i as int)),
        decreases n - i,
    {
        let c = s.get_char(i);
        if c == '"' {
            out.append("\\\"");
        } else if c == '\\' {
            out.append("\\\\");
        } else if c == '\n' {
            out.append("\\n");
        } else if c == '\r' {
            out.append("\\r");
        } else if c == '\t' {
            out.append("\\t");
        } else if c == '\u{8}' {
            out.append("\\b");
        } else if c == '\u{c}' {
            out.append("\\f");
        } else if (c as u32) < 32 {
            out.append("\\u00");
            out.append(hex_digit_str((c as u32) / 16));
            out.append(hex_digit_str((c as u32) % 16));
        } else {
            out.append(s.substring_char(i, i + 1));
            proof {
                assert(s@.subrange(i as int, i + 1) =~= seq![s@[i as int]]);
            }
        }
        proof {
            assert(s@.take(i as int).push(s@[i as int]) =~= s@.take(i + 1));
            lemma_escaped_text_push(s@.take(i as int), s@[i as int]);
        }
        i += 1;
    }
    proof {
        assert(s@.take(n as int) =~= s@);
    }
}

/// Append one task's JSON object to `out`.
fn push_json_object(out: &mut String, task: &Task)
    ensures
        final(out)@ == old(out)@ + json_task_object(task@),
{
    out.append("  {\n    \"title\": \"");
    push_escaped(out, task.title.as_str());
    out.append("\",\n    \"description\": \"");
    push_escaped(out, task.description.as_str());
    out.append("\",\n    \"completed\": ");
    if task.completed {
        out.append("true");
    } else {
        out.append("false");
    }
    out.append("\n  }");
    proof {
        assert(out@ =~= old(out)@ + json_task_object(task@));
    }
}

/// The whole task list as pretty-printed JSON: an array of objects with
/// the fields `title`, `description` and `completed`.
pub fn tasks_to_json(tasks: &Vec<Task>) -> (s: String)
    ensures
        s@ == json_text(views_of(tasks@)),
{
    let ghost views = views_of(tasks@);
    if tasks.len() == 0 {
        let s = String::from_str("[]");
        return s;
    }
    let mut s = String::new();
    s.append("[\n");
    let mut i: usize = 0;
    proof {
        assert(s@ =~= "[\n"@);
    }
    while i < tasks.len()
        invariant
            i <= tasks.len(),
            tasks.len() > 0,
            views == views_of(tasks@),
            i == 0 ==> s@ == "[\n"@,
            i > 0 ==> s@ == "[\n"@ + json_objects(views.take(i as int)),
        decreases tasks.len() - i,
    {
        let ghost before = s@;
        if i > 0 {
            s.append(",\n");
        }
        push_json_object(&mut s, &tasks[i]);
        proof {
            if i == 0 {
                assert(views.take(1) =~= seq![views[0]]);
                assert(json_objects(seq![views[0]]) == json_task_object(views[0]));
                assert(s@ =~= "[\n"@ + json_objects(views.take(1)));
            } else {
                assert(views.take(i as int).push(views[i as int]) =~= views.take(i + 1));
                lemma_json_objects_push(views.take(i as int), views[i as int]);
                assert(s@ =~= "[\n"@ + json_objects(views.take(i + 1)));
            }
        }
        i += 1;
    }
    s.append("\n]");
    proof {
        assert(views.take(tasks@.len() as int) =~= views);
        assert(s@ =~= json_text(views));
    }
    s
}

/// Append one task's YAML entry to `out`.
fn push_yaml_entry(out: &mut String, task: &Task)
    ensures
        final(out)@ == old(out)@ + yaml_task_entry(task@),
{
    out.append("- title: \"");
    push_escaped(out, task.title.as_str());
    out.append("\"\n  description: \"");
    push_escaped(out, task.description.as_str());
    out.append("\"\n  completed: ");
    if task.completed {
        out.append("true");
    } else {
        out.append("false");
    }
    out.append("\n");
    proof {
        assert(out@ =~= old(out)@ + yaml_task_entry(task@));
    }
}

/// The whole task list as YAML: a block sequence of mappings with the
/// fields `title`, `description` and `completed`.
pub fn tasks_to_yaml(tasks: &Vec<Task>) -> (s: String)
    ensures
        s@ == yaml_text(views_of(tasks@)),
{
    let ghost views = views_of(tasks@);
    if tasks.len() == 0 {
        let s = String::from_str("[]\n");
        return s;
    }
    let mut s = String::new();
    let mut i: usize = 0;
    proof {
        assert(views.take(0) =~= Seq::<TaskView>::empty());
        assert(yaml_entries(Seq::<TaskView>::empty()) == Seq::<char>::empty());
        assert(s@ =~= yaml_entries(views.take(0)));
    }
    while i < tasks.len()
        invariant
            i <= tasks.len(),
            tasks.len() > 0,
            views == views_of(tasks@),
            s@ == yaml_entries(views.take(i as int)),
        decreases tasks.len() - i,
    {
        push_yaml_entry(&mut s, &tasks[i]);
        proof {
            assert(views.take(i as int).push(views[i as int]) =~= views.take(i + 1));
            lemma_yaml_entries_push(views.take(i as int), views[i as int]);
        }
        i += 1;
    }
    proof {
        assert(views.take(tasks@.len() as int) =~= views);
    }
    s
}

} // verus!
