//! The native persistence format: each task is three `key: value` lines
//! (`Title`, `Description`, `Completed`), and records are separated by one
//! blank line. Decoding never rejects its input: unrecognized lines are
//! ignored, and missing keys leave empty texts and a clear flag.

use vstd::prelude::*;
use vstd::string::StrSliceExecFns;
use vstd::string::StringExecFns;
use crate::task::{Task, TaskView, views_of};

verus! {

// ------------------------------------------------------------------
// Encoding
// ------------------------------------------------------------------
/// The text that stands for a completion flag.
pub open spec fn bool_text(completed: bool) -> Seq<char> {
    if completed {
        "true"@
    } else {
        "false"@
    }
}

/// One record: three `key: value` lines, each ended by a newline.
pub open spec fn encode_task(t: TaskView) -> Seq<char> {
    "Title: "@ + t.title + "\n"@ + "Description: "@ + t.description + "\n"@ + "Completed: "@
        + bool_text(t.completed) + "\n"@
}

/// The whole save text: each record is followed by one blank separator line.
pub open spec fn encode_tasks(tasks: Seq<TaskView>) -> Seq<char>
    decreases tasks.len(),
{
    if tasks.len() == 0 {
        Seq::empty()
    } else {
        encode_task(tasks[0]) + "\n"@ + encode_tasks(tasks.drop_first())
    }
}

/// Appending one task to a list appends its record and a separator line
/// to the encoded text.
pub proof fn lemma_encode_tasks_push(tasks: Seq<TaskView>, t: TaskView)
    ensures
        encode_tasks(tasks.push(t)) == encode_tasks(tasks) + encode_task(t) + "\n"@,
    decreases tasks.len(),
{
    if tasks.len() == 0 {
        assert(tasks.push(t).drop_first() =~= Seq::<TaskView>::empty());
        assert(encode_tasks(Seq::<TaskView>::empty()) == Seq::<char>::empty());
        assert(encode_tasks(tasks.push(t)) == encode_task(t) + "\n"@ + Seq::<char>::empty());
        assert(encode_tasks(tasks.push(t)) =~= encode_tasks(tasks) + encode_task(t) + "\n"@);
    } else {
        assert(tasks.push(t).drop_first() =~= tasks.drop_first().push(t));
        lemma_encode_tasks_push(tasks.drop_first(), t);
        assert(encode_tasks(tasks.push(t)) =~= encode_tasks(tasks) + encode_task(t) + "\n"@);
    }
}

impl Task {
    /// The record text of one task: its three `key: value` lines.
    pub fn to_string(&self) -> (s: String)
        ensures
            s@ == encode_task(self@),
    {
        let mut s = String::new();
        s.append("Title: ");
        s.append(self.title.as_str());
        s.append("\n");
        s.append("Description: ");
        s.append(self.description.as_str());
        s.append("\n");
        s.append("Completed: ");
        if self.completed {
            s.append("true");
        } else {
            s.append("false");
        }
        s.append("\n");
        proof {
            assert(s@ =~= encode_task(self@));
        }
        s
    }
}

/// Build the save text for a whole task list: every record, each followed
/// by its separator line.
pub fn tasks_to_text(tasks: &Vec<Task>) -> (s: String)
    ensures
        s@ == encode_tasks(views_of(tasks@)),
{
    let mut s = String::new();
    let mut i: usize = 0;
    while i < tasks.len()
        invariant
            i <= tasks.len(),
            s@ == encode_tasks(views_of(tasks@).take(i as int)),
        decreases tasks.len() - i,
    {
        let record = tasks[i].to_string();
        s.append(record.as_str());
        s.append("\n");
        proof {
            let views = views_of(tasks@);
            assert(views.take(i as int).push(views[i as int]) =~= views.take(i + 1));
            lemma_encode_tasks_push(views.take(i as int), views[i as int]);
        }
        i += 1;
    }
    proof {
        assert(views_of(tasks@).take(tasks@.len() as int) =~= views_of(tasks@));
    }
    s
}

// ------------------------------------------------------------------
// Decoding: the mathematical model
// ------------------------------------------------------------------
/// Split on newline characters; `cur` is the piece read so far. The piece
/// after the last newline is always reported, even when it is empty.
pub open spec fn split_lines_from(s: Seq<char>, cur: Seq<char>) -> Seq<Seq<char>>
    decreases s.len(),
{
    if s.len() == 0 {
        seq![cur]
    } else if s[0] == '\n' {
        seq![cur] + split_lines_from(s.drop_first(), Seq::empty())
    } else {
        split_lines_from(s.drop_first(), cur.push(s[0]))
    }
}

/// All newline-separated pieces of `s`.
pub open spec fn split_lines(s: Seq<char>) -> Seq<Seq<char>> {
    split_lines_from(s, Seq::empty())
}

/// The lines of `s`: a final newline ends the last line rather than
/// opening an empty one, and an empty text has no lines at all.
pub open spec fn lines_of(s: Seq<char>) -> Seq<Seq<char>> {
    if s.len() == 0 {
        Seq::empty()
    } else if s[s.len() - 1] == '\n' {
        split_lines(s).drop_last()
    } else {
        split_lines(s)
    }
}

/// The key-value separator `": "` starts at index `i` of `line`.
pub open spec fn sep_at(line: Seq<char>, i: int) -> bool {
    0 <= i && i + 1 < line.len() && line[i] == ':' && line[i + 1] == ' '
}

/// The index of the first `": "` in `line`, if there is one.
pub open spec fn find_sep(line: Seq<char>) -> Option<int>
    decreases line.len(),
{
    if line.len() < 2 {
        Option::None
    } else if line[0] == ':' && line[1] == ' ' {
        Option::Some(0)
    } else {
        match find_sep(line.drop_first()) {
            Option::Some(i) => Option::Some(i + 1),
            Option::None => Option::None,
        }
    }
}

/// `find_sep` reports exactly the first separator position: when it
/// reports an index, a separator starts there and nowhere earlier, and
/// when it reports none, no separator starts anywhere.
pub proof fn lemma_find_sep_is_first(line: Seq<char>)
    ensures
        match find_sep(line) {
            Option::Some(i) => sep_at(line, i) && forall|j: int| 0 <= j < i ==> !sep_at(line, j),
            Option::None => forall|j: int| !sep_at(line, j),
        },
    decreases line.len(),
{
    if line.len() < 2 {
        assert(forall|j: int| !sep_at(line, j));
    } else if line[0] == ':' && line[1] == ' ' {
    } else {
        lemma_find_sep_is_first(line.drop_first());
        let rest = line.drop_first();
        assert(forall|j: int| sep_at(rest, j) == sep_at(line, j + 1));
        match find_sep(rest) {
            Option::Some(i) => {
                assert(sep_at(line, i + 1));
                assert(forall|j: int| 1 <= j < i + 1 ==> !#[trigger] sep_at(line, j)) by {
                    assert(forall|j: int|
                        1 <= j < i + 1 ==> sep_at(line, j) == sep_at(rest, j - 1));
                }
                assert(!sep_at(line, 0));
            },
            Option::None => {
                assert(forall|j: int| 1 <= j ==> sep_at(line, j) == sep_at(rest, j - 1));
                assert(forall|j: int| !sep_at(line, j));
            },
        }
    }
}

/// The whitespace that trimming a value removes.
pub open spec fn is_space(c: char) -> bool {
    c == ' ' || c == '\t' || c == '\r' || c == '\n'
}

/// `s` with leading and trailing whitespace removed.
pub open spec fn trimmed(s: Seq<char>) -> Seq<char>
    decreases s.len(),
{
    if s.len() == 0 {
        s
    } else if is_space(s[0]) {
        trimmed(s.drop_first())
    } else if is_space(s[s.len() - 1]) {
        trimmed(s.drop_last())
    } else {
        s
    }
}

/// The task a block decodes to before any recognized line: empty texts,
/// not completed.
pub open spec fn empty_task_view() -> TaskView {
    TaskView { title: Seq::empty(), description: Seq::empty(), completed: false }
}

/// The effect of one line on the fields collected so far: a recognized
/// `key: value` line overwrites its field (`Completed` holds exactly when
/// the trimmed value is `true`), any other line is ignored.
pub open spec fn apply_line(acc: TaskView, line: Seq<char>) -> TaskView {
    match find_sep(line) {
        Option::Some(i) => {
            let key = line.take(i);
            let value = line.skip(i + 2);
            if key == "Title"@ {
                TaskView { title: value, description: acc.description, completed: acc.completed }
            } else if key == "Description"@ {
                TaskView { title: acc.title, description: value, completed: acc.completed }
            } else if key == "Completed"@ {
                TaskView {
                    title: acc.title,
                    description: acc.description,
                    completed: trimmed(value) == "true"@,
                }
            } else {
                acc
            }
        },
        Option::None => acc,
    }
}

/// Fold the lines of a block over the fields collected so far.
pub open spec fn parse_lines_from(lines: Seq<Seq<char>>, acc: TaskView) -> TaskView
    decreases lines.len(),
{
    if lines.len() == 0 {
        acc
    } else {
        parse_lines_from(lines.drop_first(), apply_line(acc, lines[0]))
    }
}

/// The task one block of lines decodes to. No block is rejected: a block
/// without recognized keys decodes to the empty task.
pub open spec fn parse_block(lines: Seq<Seq<char>>) -> TaskView {
    parse_lines_from(lines, empty_task_view())
}

/// Group lines into blank-line-separated blocks; `cur` is the open block.
/// Consecutive blank lines open no empty blocks, and an open block at the
/// end of input is still reported.
pub open spec fn blocks_from(lines: Seq<Seq<char>>, cur: Seq<Seq<char>>) -> Seq<Seq<Seq<char>>>
    decreases lines.len(),
{
    if lines.len() == 0 {
        if cur.len() == 0 {
            Seq::empty()
        } else {
            seq![cur]
        }
    } else if lines[0].len() == 0 {
        if cur.len() == 0 {
            blocks_from(lines.drop_first(), Seq::empty())
        } else {
            seq![cur] + blocks_from(lines.drop_first(), Seq::empty())
        }
    } else {
        blocks_from(lines.drop_first(), cur.push(lines[0]))
    }
}

/// The blank-line-separated blocks of a line sequence.
pub open spec fn blocks_of(lines: Seq<Seq<char>>) -> Seq<Seq<Seq<char>>> {
    blocks_from(lines, Seq::empty())
}

/// The tasks a block sequence decodes to, one task per block.
pub open spec fn parse_blocks(blocks: Seq<Seq<Seq<char>>>) -> Seq<TaskView> {
    blocks.map_values(|b: Seq<Seq<char>>| parse_block(b))
}

/// The tasks encoded in a whole save text: one task per block.
pub open spec fn parse_text(s: Seq<char>) -> Seq<TaskView> {
    parse_blocks(blocks_of(lines_of(s)))
}

// ------------------------------------------------------------------
// The round trip: decoding a saved text gives back the saved tasks
// ------------------------------------------------------------------
/// A task the native format can reproduce: both text fields free of
/// newline characters. A newline inside a field would be written out as
/// a line break and read back as one, so such fields cannot round-trip.
pub open spec fn single_line(t: TaskView) -> bool {
    !t.title.contains('\n') && !t.description.contains('\n')
}

/// The first line of a record.
pub open spec fn title_line(t: TaskView) -> Seq<char> {
    "Title: "@ + t.title
}

/// The second line of a record.
pub open spec fn description_line(t: TaskView) -> Seq<char> {
    "Description: "@ + t.description
}

/// The third line of a record.
pub open spec fn completed_line(t: TaskView) -> Seq<char> {
    "Completed: "@ + bool_text(t.completed)
}

/// The lines one record contributes to the save text, separator included.
spec fn record_lines(t: TaskView) -> Seq<Seq<char>> {
    seq![title_line(t), description_line(t), completed_line(t), Seq::empty()]
}

/// The lines of a whole save text.
spec fn all_lines(tasks: Seq<TaskView>) -> Seq<Seq<char>>
    decreases tasks.len(),
{
    if tasks.len() == 0 {
        Seq::empty()
    } else {
        record_lines(tasks[0]) + all_lines(tasks.drop_first())
    }
}

/// The block one record decodes from: its three lines, separator gone.
spec fn record_block(t: TaskView) -> Seq<Seq<char>> {
    seq![title_line(t), description_line(t), completed_line(t)]
}

/// The blocks of a whole save text, one per task.
spec fn task_blocks(tasks: Seq<TaskView>) -> Seq<Seq<Seq<char>>> {
    tasks.map_values(|t: TaskView| record_block(t))
}

/// Text without newlines stays in one piece when a newline and more text
/// follow it: splitting takes it whole into the open piece.
proof fn lemma_split_line_prefix(a: Seq<char>, b: Seq<char>, cur: Seq<char>)
    requires
        !a.contains('\n'),
    ensures
        split_lines_from(a + "\n"@ + b, cur) == seq![cur + a] + split_lines_from(b, Seq::empty()),
    decreases a.len(),
{
    reveal_strlit("\n");
    let s = a + "\n"@ + b;
    assert("\n"@.len() == 1);
    assert("\n"@[0] == '\n');
    if a.len() == 0 {
        assert(s[0] == '\n');
        assert(s.drop_first() =~= b);
        assert(cur + a =~= cur);
        assert(split_lines_from(s, cur) == seq![cur] + split_lines_from(b, Seq::empty()));
    } else {
        assert(s[0] == a[0]);
        assert(a[0] != '\n');
        assert(s.drop_first() =~= a.drop_first() + "\n"@ + b);
        assert(!a.drop_first().contains('\n')) by {
            if a.drop_first().contains('\n') {
                let i = choose|i: int|
                    0 <= i < a.drop_first().len() && a.drop_first()[i] == '\n';
                assert(a[i + 1] == '\n');
                assert(a.contains('\n'));
            }
        }
        lemma_split_line_prefix(a.drop_first(), b, cur.push(a[0]));
        assert(cur.push(a[0]) + a.drop_first() =~= cur + a);
        assert(split_lines_from(s, cur) == seq![cur + a] + split_lines_from(b, Seq::empty()));
    }
}

/// Concatenating newline-free texts keeps them newline-free.
proof fn lemma_concat_no_newline(a: Seq<char>, b: Seq<char>)
    requires
        !a.contains('\n'),
        !b.contains('\n'),
    ensures
        !(a + b).contains('\n'),
{
    if (a + b).contains('\n') {
        let i = choose|i: int| 0 <= i < (a + b).len() && (a + b)[i] == '\n';
        if i < a.len() {
            assert(a[i] == '\n');
            assert(a.contains('\n'));
        } else {
            assert(b[i - a.len()] == '\n');
            assert(b.contains('\n'));
        }
    }
}

/// The fixed parts of the format hold no newline.
proof fn lemma_literals_no_newline()
    ensures
        !("Title: "@).contains('\n'),
        !("Description: "@).contains('\n'),
        !("Completed: "@).contains('\n'),
        !("true"@).contains('\n'),
        !("false"@).contains('\n'),
{
    reveal_strlit("Title: ");
    reveal_strlit("Description: ");
    reveal_strlit("Completed: ");
    reveal_strlit("true");
    reveal_strlit("false");
    assert(forall|i: int| 0 <= i < 7 ==> "Title: "@[i] != '\n');
    assert(forall|i: int| 0 <= i < 13 ==> "Description: "@[i] != '\n');
    assert(forall|i: int| 0 <= i < 11 ==> "Completed: "@[i] != '\n');
    assert(forall|i: int| 0 <= i < 4 ==> "true"@[i] != '\n');
    assert(forall|i: int| 0 <= i < 5 ==> "false"@[i] != '\n');
}

/// A nonempty save text ends with a newline.
proof fn lemma_encode_tasks_ends_newline(tasks: Seq<TaskView>)
    requires
        tasks.len() > 0,
    ensures
        encode_tasks(tasks).len() > 0,
        encode_tasks(tasks)[encode_tasks(tasks).len() - 1] == '\n',
    decreases tasks.len(),
{
    reveal_strlit("\n");
    let rest = tasks.drop_first();
    let s = encode_tasks(tasks);
    assert(s == encode_task(tasks[0]) + "\n"@ + encode_tasks(rest));
    if rest.len() == 0 {
        assert(encode_tasks(rest) == Seq::<char>::empty());
        assert(s[s.len() - 1] == "\n"@[0]);
    } else {
        lemma_encode_tasks_ends_newline(rest);
        let r = encode_tasks(rest);
        assert(s[s.len() - 1] == r[r.len() - 1]);
    }
}

/// Splitting a save text yields the records' lines, plus the empty piece
/// that the final newline opens.
#[verifier::rlimit(60)]
proof fn lemma_split_encode_tasks(tasks: Seq<TaskView>)
    requires
        forall|i: int| 0 <= i < tasks.len() ==> single_line(#[trigger] tasks[i]),
    ensures
        split_lines_from(encode_tasks(tasks), Seq::empty()) == all_lines(tasks) + seq![
            Seq::<char>::empty(),
        ],
    decreases tasks.len(),
{
    lemma_literals_no_newline();
    if tasks.len() == 0 {
        assert(encode_tasks(tasks) == Seq::<char>::empty());
        assert(split_lines_from(Seq::<char>::empty(), Seq::<char>::empty()) == seq![
            Seq::<char>::empty(),
        ]);
        assert(all_lines(tasks) + seq![Seq::<char>::empty()] =~= seq![Seq::<char>::empty()]);
    } else {
        let t = tasks[0];
        let rest = tasks.drop_first();
        let rest_text = encode_tasks(rest);
        let l1 = title_line(t);
        let l2 = description_line(t);
        let l3 = completed_line(t);
        assert(single_line(t));
        lemma_concat_no_newline("Title: "@, t.title);
        lemma_concat_no_newline("Description: "@, t.description);
        lemma_concat_no_newline("Completed: "@, bool_text(t.completed));
        let b3 = Seq::<char>::empty() + "\n"@ + rest_text;
        let b2 = l3 + "\n"@ + b3;
        let b1 = l2 + "\n"@ + b2;
        assert(encode_tasks(tasks) == encode_task(t) + "\n"@ + rest_text);
        assert(encode_task(t) + "\n"@ + rest_text =~= l1 + "\n"@ + b1);
        lemma_split_line_prefix(l1, b1, Seq::empty());
        lemma_split_line_prefix(l2, b2, Seq::empty());
        lemma_split_line_prefix(l3, b3, Seq::empty());
        lemma_split_line_prefix(Seq::empty(), rest_text, Seq::empty());
        assert(forall|i: int| 0 <= i < rest.len() ==> single_line(#[trigger] rest[i])) by {
            assert(forall|i: int| 0 <= i < rest.len() ==> rest[i] == tasks[i + 1]);
        }
        lemma_split_encode_tasks(rest);
        assert(Seq::<char>::empty() + l1 =~= l1);
        assert(Seq::<char>::empty() + l2 =~= l2);
        assert(Seq::<char>::empty() + l3 =~= l3);
        assert(Seq::<char>::empty() + Seq::<char>::empty() =~= Seq::<char>::empty());
        assert(split_lines_from(encode_tasks(tasks), Seq::empty()) == seq![l1]
            + split_lines_from(b1, Seq::empty()));
        assert(split_lines_from(b1, Seq::empty()) == seq![l2] + split_lines_from(b2, Seq::empty()));
        assert(split_lines_from(b2, Seq::empty()) == seq![l3] + split_lines_from(b3, Seq::empty()));
        assert(split_lines_from(b3, Seq::empty()) == seq![Seq::<char>::empty()] + split_lines_from(
            rest_text,
            Seq::empty(),
        ));
        assert(split_lines_from(rest_text, Seq::empty()) == all_lines(rest) + seq![
            Seq::<char>::empty(),
        ]);
        assert(split_lines_from(encode_tasks(tasks), Seq::empty()) =~= all_lines(tasks) + seq![
            Seq::<char>::empty(),
        ]);
    }
}

/// Grouping the lines of a save text gives back one block per record.
proof fn lemma_blocks_all_lines(tasks: Seq<TaskView>)
    ensures
        blocks_from(all_lines(tasks), Seq::empty()) == task_blocks(tasks),
    decreases tasks.len(),
{
    reveal_strlit("Title: ");
    reveal_strlit("Description: ");
    reveal_strlit("Completed: ");
    if tasks.len() == 0 {
        assert(blocks_from(Seq::<Seq<char>>::empty(), Seq::<Seq<char>>::empty())
            == Seq::<Seq<Seq<char>>>::empty());
        assert(task_blocks(tasks) =~= Seq::<Seq<Seq<char>>>::empty());
    } else {
        let t = tasks[0];
        let rest = tasks.drop_first();
        let l1 = title_line(t);
        let l2 = description_line(t);
        let l3 = completed_line(t);
        let lines = all_lines(tasks);
        let lines_rest = all_lines(rest);
        assert(l1.len() > 0);
        assert(l2.len() > 0);
        assert(l3.len() > 0);
        assert(lines == record_lines(t) + lines_rest);
        assert(lines[0] == l1);
        assert(lines.drop_first() =~= seq![l2, l3, Seq::<char>::empty()] + lines_rest);
        assert(blocks_from(lines, Seq::empty()) == blocks_from(
            seq![l2, l3, Seq::<char>::empty()] + lines_rest,
            Seq::<Seq<char>>::empty().push(l1),
        ));
        assert(Seq::<Seq<char>>::empty().push(l1) =~= seq![l1]);
        assert((seq![l2, l3, Seq::<char>::empty()] + lines_rest)[0] == l2);
        assert((seq![l2, l3, Seq::<char>::empty()] + lines_rest).drop_first() =~= seq![
            l3,
            Seq::<char>::empty(),
        ] + lines_rest);
        assert(blocks_from(seq![l2, l3, Seq::<char>::empty()] + lines_rest, seq![l1])
            == blocks_from(seq![l3, Seq::<char>::empty()] + lines_rest, seq![l1].push(l2)));
        assert(seq![l1].push(l2) =~= seq![l1, l2]);
        assert((seq![l3, Seq::<char>::empty()] + lines_rest)[0] == l3);
        assert((seq![l3, Seq::<char>::empty()] + lines_rest).drop_first() =~= seq![
            Seq::<char>::empty(),
        ] + lines_rest);
        assert(blocks_from(seq![l3, Seq::<char>::empty()] + lines_rest, seq![l1, l2])
            == blocks_from(seq![Seq::<char>::empty()] + lines_rest, seq![l1, l2].push(l3)));
        assert(seq![l1, l2].push(l3) =~= seq![l1, l2, l3]);
        assert((seq![Seq::<char>::empty()] + lines_rest)[0].len() == 0);
        assert((seq![Seq::<char>::empty()] + lines_rest).drop_first() =~= lines_rest);
        assert(blocks_from(seq![Seq::<char>::empty()] + lines_rest, seq![l1, l2, l3]) == seq![
            seq![l1, l2, l3],
        ] + blocks_from(lines_rest, Seq::empty()));
        lemma_blocks_all_lines(rest);
        assert(seq![record_block(t)] + task_blocks(rest) =~= task_blocks(tasks));
    }
}

/// Decoding the three lines of a record gives back exactly the record's
/// task, whatever the field texts hold.
proof fn lemma_parse_record_block(t: TaskView)
    ensures
        parse_block(record_block(t)) == t,
{
    reveal_strlit("Title: ");
    reveal_strlit("Title");
    reveal_strlit("Description: ");
    reveal_strlit("Description");
    reveal_strlit("Completed: ");
    reveal_strlit("Completed");
    reveal_strlit("true");
    reveal_strlit("false");
    let l1 = title_line(t);
    let l2 = description_line(t);
    let l3 = completed_line(t);

    lemma_find_sep_is_first(l1);
    assert(l1[5] == ':' && l1[6] == ' ');
    assert(sep_at(l1, 5));
    assert forall|j: int| 0 <= j < 5 implies !sep_at(l1, j) by {
        assert(l1[j] == "Title: "@[j]);
    }
    assert(find_sep(l1) == Option::Some(5int));
    assert(l1.take(5) =~= "Title"@);
    assert(l1.skip(7) =~= t.title);

    lemma_find_sep_is_first(l2);
    assert(l2[11] == ':' && l2[12] == ' ');
    assert(sep_at(l2, 11));
    assert forall|j: int| 0 <= j < 11 implies !sep_at(l2, j) by {
        assert(l2[j] == "Description: "@[j]);
    }
    assert(find_sep(l2) == Option::Some(11int));
    assert(l2.take(11) =~= "Description"@);
    assert(l2.skip(13) =~= t.description);

    lemma_find_sep_is_first(l3);
    assert(l3[9] == ':' && l3[10] == ' ');
    assert(sep_at(l3, 9));
    assert forall|j: int| 0 <= j < 9 implies !sep_at(l3, j) by {
        assert(l3[j] == "Completed: "@[j]);
    }
    assert(find_sep(l3) == Option::Some(9int));
    assert(l3.take(9) =~= "Completed"@);
    assert(l3.skip(11) =~= bool_text(t.completed));

    assert("Description"@ != "Title"@);
    assert("Completed"@ != "Title"@);
    assert("Completed"@ != "Description"@);

    assert(trimmed(bool_text(t.completed)) == bool_text(t.completed)) by {
        if t.completed {
            assert(!is_space("true"@[0]));
            assert(!is_space("true"@[3]));
        } else {
            assert(!is_space("false"@[0]));
            assert(!is_space("false"@[4]));
        }
    }
    assert((trimmed(bool_text(t.completed)) == "true"@) == t.completed) by {
        assert("false"@ != "true"@);
    }

    let acc0 = empty_task_view();
    let acc1 = apply_line(acc0, l1);
    assert(acc1 == (TaskView { title: t.title, description: acc0.description, completed: false }));
    let acc2 = apply_line(acc1, l2);
    assert(acc2 == (TaskView { title: t.title, description: t.description, completed: false }));
    let acc3 = apply_line(acc2, l3);
    assert(acc3 == t);

    let lines = record_block(t);
    assert(lines[0] == l1);
    assert(lines.drop_first() =~= seq![l2, l3]);
    assert(parse_lines_from(lines, acc0) == parse_lines_from(seq![l2, l3], acc1));
    assert(seq![l2, l3][0] == l2);
    assert(seq![l2, l3].drop_first() =~= seq![l3]);
    assert(parse_lines_from(seq![l2, l3], acc1) == parse_lines_from(seq![l3], acc2));
    assert(seq![l3][0] == l3);
    assert(seq![l3].drop_first() =~= Seq::<Seq<char>>::empty());
    assert(parse_lines_from(seq![l3], acc2) == parse_lines_from(Seq::<Seq<char>>::empty(), acc3));
    assert(parse_lines_from(Seq::<Seq<char>>::empty(), acc3) == acc3);
}

/// Decoding every record's block gives back the whole task list.
proof fn lemma_parse_task_blocks(tasks: Seq<TaskView>)
    ensures
        parse_blocks(task_blocks(tasks)) == tasks,
{
    assert forall|i: int| 0 <= i < tasks.len() implies parse_blocks(task_blocks(tasks))[i]
        == tasks[i] by {
        lemma_parse_record_block(tasks[i]);
    }
    assert(parse_blocks(task_blocks(tasks)) =~= tasks);
}

/// The round-trip law: loading a saved text reproduces exactly the task
/// list that was saved — same titles, descriptions and completion flags,
/// in the same order — provided every field is single-line. A title or
/// description holding a newline is written out as a line break and
/// cannot be told from one, so such lists are excluded.
pub proof fn lemma_save_load_round_trip(tasks: Seq<TaskView>)
    requires
        forall|i: int| 0 <= i < tasks.len() ==> single_line(#[trigger] tasks[i]),
    ensures
        parse_text(encode_tasks(tasks)) == tasks,
{
    if tasks.len() == 0 {
        assert(encode_tasks(tasks) == Seq::<char>::empty());
        assert(lines_of(Seq::<char>::empty()) == Seq::<Seq<char>>::empty());
        assert(blocks_from(Seq::<Seq<char>>::empty(), Seq::<Seq<char>>::empty())
            == Seq::<Seq<Seq<char>>>::empty());
        assert(parse_text(encode_tasks(tasks)) =~= tasks);
    } else {
        let text = encode_tasks(tasks);
        lemma_encode_tasks_ends_newline(tasks);
        lemma_split_encode_tasks(tasks);
        assert(lines_of(text) == split_lines(text).drop_last());
        assert(lines_of(text) =~= all_lines(tasks));
        lemma_blocks_all_lines(tasks);
        lemma_parse_task_blocks(tasks);
        assert(parse_text(text) == tasks);
    }
}

// ------------------------------------------------------------------
// Decoding: executable code
// ------------------------------------------------------------------
/// Splitting never yields an empty piece list.
proof fn lemma_split_lines_from_nonempty(s: Seq<char>, cur: Seq<char>)
    ensures
        split_lines_from(s, cur).len() >= 1,
    decreases s.len(),
{
    if s.len() == 0 {
    } else if s[0] == '\n' {
    } else {
        lemma_split_lines_from_nonempty(s.drop_first(), cur.push(s[0]));
    }
}

/// All newline-separated pieces of `s`, as owned strings.
fn split_pieces(s: &str) -> (pieces: Vec<String>)
    ensures
        pieces@.map_values(|l: String| l@) == split_lines(s@),
{
    let n = s.unicode_len();
    let mut pieces: Vec<String> = Vec::new();
    let mut start: usize = 0;
    let mut i: usize = 0;
    proof {
        assert(s@.skip(0) =~= s@);
        assert(s@.subrange(0, 0) =~= Seq::<char>::empty());
        assert(pieces@.map_values(|l: String| l@) =~= Seq::<Seq<char>>::empty());
    }
    while i < n
        invariant
            start <= i <= n,
            n == s@.len(),
            pieces@.map_values(|l: String| l@) + split_lines_from(
                s@.skip(i as int),
                s@.subrange(start as int, i as int),
            ) == split_lines(s@),
        decreases n - i,
    {
        let ghost done = pieces@.map_values(|l: String| l@);
        let ghost cur = s@.subrange(start as int, i as int);
        proof {
            assert(s@.skip(i as int)[0] == s@[i as int]);
            assert(s@.skip(i as int).drop_first() =~= s@.skip(i + 1));
        }
        if s.get_char(i) == '\n' {
            let piece = String::from_str(s.substring_char(start, i));
            pieces.push(piece);
            start = i + 1;
            proof {
                assert(split_lines_from(s@.skip(i as int), cur) == seq![cur] + split_lines_from(
                    s@.skip(i + 1),
                    Seq::empty(),
                ));
                assert(pieces@.map_values(|l: String| l@) =~= done.push(cur));
                assert(done.push(cur) + split_lines_from(s@.skip(i + 1), Seq::empty()) =~= done + (
                seq![cur] + split_lines_from(s@.skip(i + 1), Seq::empty())));
                assert(s@.subrange(i + 1, i + 1) =~= Seq::<char>::empty());
            }
        } else {
            proof {
                assert(cur.push(s@[i as int]) =~= s@.subrange(start as int, i + 1));
                assert(split_lines_from(s@.skip(i as int), cur) == split_lines_from(
                    s@.skip(i + 1),
                    s@.subrange(start as int, i + 1),
                ));
            }
        }
        i += 1;
    }
    let last = String::from_str(s.substring_char(start, n));
    pieces.push(last);
    proof {
        let ghost done = pieces@.drop_last().map_values(|l: String| l@);
        assert(s@.skip(n as int) =~= Seq::<char>::empty());
        assert(split_lines_from(s@.skip(n as int), s@.subrange(start as int, n as int)) == seq![
            s@.subrange(start as int, n as int),
        ]);
        assert(pieces@.map_values(|l: String| l@) =~= split_lines(s@));
    }
    pieces
}

/// The lines of `s`: a final newline ends the last line rather than
/// opening an empty one.
fn text_lines(s: &str) -> (lines: Vec<String>)
    ensures
        lines@.map_values(|l: String| l@) == lines_of(s@),
{
    let n = s.unicode_len();
    if n == 0 {
        let lines: Vec<String> = Vec::new();
        proof {
            assert(lines@.map_values(|l: String| l@) =~= lines_of(s@));
        }
        return lines;
    }
    let mut pieces = split_pieces(s);
    if s.get_char(n - 1) == '\n' {
        proof {
            lemma_split_lines_from_nonempty(s@, Seq::empty());
            assert(pieces@.len() == split_lines(s@).len());
        }
        pieces.pop();
        proof {
            assert(pieces@.map_values(|l: String| l@) =~= split_lines(s@).drop_last());
        }
    }
    pieces
}

/// Character-for-character equality of two text slices.
fn str_eq(a: &str, b: &str) -> (r: bool)
    ensures
        r == (a@ == b@),
{
    let sa = String::from_str(a);
    let sb = String::from_str(b);
    sa.eq(&sb)
}

/// Whitespace test matching the specification's notion of a space.
fn is_space_char(c: char) -> (r: bool)
    ensures
        r == is_space(c),
{
    c == ' ' || c == '\t' || c == '\r' || c == '\n'
}

/// The position of the first `": "` in `line`, if there is one.
fn find_sep_exec(line: &str) -> (r: Option<usize>)
    ensures
        match r {
            Option::Some(i) => find_sep(line@) == Option::Some(i as int),
            Option::None => find_sep(line@) == Option::<int>::None,
        },
{
    let n = line.unicode_len();
    if n < 2 {
        proof {
            lemma_find_sep_is_first(line@);
            if find_sep(line@) is Some {
                assert(false);
            }
        }
        return Option::None;
    }
    let mut i: usize = 0;
    while i < n - 1
        invariant
            n == line@.len(),
            2 <= n,
            i <= n,
            forall|j: int| 0 <= j < i ==> !sep_at(line@, j),
        decreases n - i,
    {
        if line.get_char(i) == ':' && line.get_char(i + 1) == ' ' {
            proof {
                lemma_find_sep_is_first(line@);
                assert(sep_at(line@, i as int));
                if find_sep(line@) is None {
                    assert(false);
                }
            }
            return Option::Some(i);
        }
        i += 1;
    }
    proof {
        lemma_find_sep_is_first(line@);
        assert(forall|j: int| !sep_at(line@, j));
        if find_sep(line@) is Some {
            assert(false);
        }
    }
    Option::None
}

/// Whether the value of a `Completed` line, trimmed, names `true`.
fn value_is_true(v: &str) -> (r: bool)
    ensures
        r == (trimmed(v@) == "true"@),
{
    let n = v.unicode_len();
    let mut lo: usize = 0;
    let mut hi: usize = n;
    proof {
        assert(v@.subrange(0, n as int) =~= v@);
    }
    while lo < hi && is_space_char(v.get_char(lo))
        invariant
            lo <= hi <= n,
            n == v@.len(),
            trimmed(v@) == trimmed(v@.subrange(lo as int, hi as int)),
        decreases hi - lo,
    {
        proof {
            let sub = v@.subrange(lo as int, hi as int);
            assert(sub[0] == v@[lo as int]);
            assert(sub.drop_first() =~= v@.subrange(lo + 1, hi as int));
        }
        lo = lo + 1;
    }
    while lo < hi && is_space_char(v.get_char(hi - 1))
        invariant
            lo <= hi <= n,
            n == v@.len(),
            trimmed(v@) == trimmed(v@.subrange(lo as int, hi as int)),
            lo < hi ==> !is_space(v@[lo as int]),
        decreases hi - lo,
    {
        proof {
            let sub = v@.subrange(lo as int, hi as int);
            assert(sub[0] == v@[lo as int]);
            assert(sub[sub.len() - 1] == v@[hi - 1]);
            assert(sub.drop_last() =~= v@.subrange(lo as int, hi - 1));
        }
        hi = hi - 1;
    }
    proof {
        let sub = v@.subrange(lo as int, hi as int);
        if lo < hi {
            assert(sub[0] == v@[lo as int]);
            assert(sub[sub.len() - 1] == v@[hi - 1]);
        }
        assert(trimmed(sub) == sub);
    }
    str_eq(v.substring_char(lo, hi), "true")
}

/// Decode one block given as its lines, folding each line into the
/// fields collected so far.
fn task_of_lines(lines: &Vec<String>) -> (t: Task)
    ensures
        t@ == parse_block(lines@.map_values(|l: String| l@)),
{
    let ghost lviews = lines@.map_values(|l: String| l@);
    let mut title = String::new();
    let mut description = String::new();
    let mut completed = false;
    let mut i: usize = 0;
    proof {
        assert(lviews.skip(0) =~= lviews);
        assert((TaskView { title: title@, description: description@, completed })
            == empty_task_view());
    }
    while i < lines.len()
        invariant
            i <= lines.len(),
            lviews == lines@.map_values(|l: String| l@),
            parse_lines_from(
                lviews.skip(i as int),
                TaskView { title: title@, description: description@, completed },
            ) == parse_block(lviews),
        decreases lines.len() - i,
    {
        let ghost acc_pre = TaskView { title: title@, description: description@, completed };
        proof {
            assert(lviews.skip(i as int)[0] == lviews[i as int]);
            assert(lviews.skip(i as int).drop_first() =~= lviews.skip(i + 1));
        }
        let line: &String = &lines[i];
        match find_sep_exec(line.as_str()) {
            Option::Some(p) => {
                proof {
                    lemma_find_sep_is_first(line@);
                }
                let len = line.as_str().unicode_len();
                let key = line.as_str().substring_char(0, p);
                let value = line.as_str().substring_char(p + 2, len);
                proof {
                    assert(key@ =~= line@.take(p as int));
                    assert(value@ =~= line@.skip(p + 2));
                }
                if str_eq(key, "Title") {
                    title = String::from_str(value);
                } else if str_eq(key, "Description") {
                    description = String::from_str(value);
                } else if str_eq(key, "Completed") {
                    completed = value_is_true(value);
                }
                proof {
                    assert((TaskView { title: title@, description: description@, completed })
                        == apply_line(acc_pre, lviews[i as int]));
                }
            },
            Option::None => {
                proof {
                    assert(apply_line(acc_pre, lviews[i as int]) == acc_pre);
                }
            },
        }
        i += 1;
    }
    proof {
        assert(lviews.skip(lines@.len() as int) =~= Seq::<Seq<char>>::empty());
    }
    Task { title, description, completed }
}

impl Task {
    /// Decode one record block. Never fails: fields no recognized line
    /// sets keep their defaults, and unrecognized lines are ignored.
    pub fn from_string(s: &str) -> (t: Task)
        ensures
            t@ == parse_block(lines_of(s@)),
    {
        let lines = text_lines(s);
        task_of_lines(&lines)
    }
}

/// Decode a whole save text: lines are grouped into blank-line-separated
/// blocks and each block decodes to one task. A block still open at the
/// end of the text is decoded too, and no input is ever rejected.
pub fn load_tasks_from_text(text: &str) -> (tasks: Vec<Task>)
    ensures
        views_of(tasks@) == parse_text(text@),
{
    let lines = text_lines(text);
    let ghost lviews = lines@.map_values(|l: String| l@);
    let mut tasks: Vec<Task> = Vec::new();
    let mut block: Vec<String> = Vec::new();
    let mut i: usize = 0;
    proof {
        assert(lviews.skip(0) =~= lviews);
        assert(block@.map_values(|l: String| l@) =~= Seq::<Seq<char>>::empty());
        assert(views_of(tasks@) =~= Seq::<TaskView>::empty());
        assert(Seq::<TaskView>::empty() + parse_blocks(blocks_of(lviews)) =~= parse_text(text@));
    }
    while i < lines.len()
        invariant
            i <= lines.len(),
            lviews == lines@.map_values(|l: String| l@),
            lviews == lines_of(text@),
            views_of(tasks@) + parse_blocks(
                blocks_from(lviews.skip(i as int), block@.map_values(|l: String| l@)),
            ) == parse_text(text@),
        decreases lines.len() - i,
    {
        let ghost done = views_of(tasks@);
        let ghost bviews = block@.map_values(|l: String| l@);
        proof {
            assert(lviews.skip(i as int)[0] == lviews[i as int]);
            assert(lviews.skip(i as int).drop_first() =~= lviews.skip(i + 1));
        }
        let line: &String = &lines[i];
        if line.as_str().unicode_len() == 0 {
            if block.len() > 0 {
                let t = task_of_lines(&block);
                tasks.push(t);
                block = Vec::new();
                proof {
                    assert(blocks_from(lviews.skip(i as int), bviews) == seq![bviews]
                        + blocks_from(lviews.skip(i + 1), Seq::empty()));
                    assert(views_of(tasks@) =~= done.push(parse_block(bviews)));
                    assert(block@.map_values(|l: String| l@) =~= Seq::<Seq<char>>::empty());
                    assert(done.push(parse_block(bviews)) + parse_blocks(
                        blocks_from(lviews.skip(i + 1), Seq::empty()),
                    ) =~= done + parse_blocks(
                        seq![bviews] + blocks_from(lviews.skip(i + 1), Seq::empty()),
                    ));
                }
            } else {
                proof {
                    assert(bviews.len() == 0);
                    assert(bviews =~= Seq::<Seq<char>>::empty());
                }
            }
        } else {
            block.push(line.clone());
            proof {
                assert(lviews[i as int].len() > 0);
                assert(block@.map_values(|l: String| l@) =~= bviews.push(lviews[i as int]));
            }
        }
        i += 1;
    }
    proof {
        assert(lviews.skip(lines@.len() as int) =~= Seq::<Seq<char>>::empty());
    }
    if block.len() > 0 {
        let ghost done = views_of(tasks@);
        let ghost bviews = block@.map_values(|l: String| l@);
        let t = task_of_lines(&block);
        tasks.push(t);
        proof {
            assert(blocks_from(Seq::<Seq<char>>::empty(), bviews) == seq![bviews]);
            assert(parse_blocks(seq![bviews]) =~= seq![parse_block(bviews)]);
            assert(views_of(tasks@) =~= done.push(parse_block(bviews)));
            assert(views_of(tasks@) =~= done + parse_blocks(seq![bviews]));
        }
    } else {
        proof {
            let bviews = block@.map_values(|l: String| l@);
            assert(bviews.len() == 0);
            assert(blocks_from(Seq::<Seq<char>>::empty(), bviews) == Seq::<Seq<Seq<char>>>::empty());
            assert(parse_blocks(Seq::<Seq<Seq<char>>>::empty()) =~= Seq::<TaskView>::empty());
            assert(views_of(tasks@) + Seq::<TaskView>::empty() =~= views_of(tasks@));
        }
    }
    tasks
}

} // verus!
