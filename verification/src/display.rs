//! The tree view: one line for the scanned root, then one line per entry
//! below it, drawn with box-drawing connectors, sizes right-aligned among
//! siblings and coloured by magnitude.
use vstd::prelude::*;
use vstd::string::*;
use crate::entry::{Entry, EntryKind, node_count, forest_node_count};
use crate::format::{format_size, size_text};
use crate::paint::{paint, painted_with, tinted, Painted, Tint};

verus! {

/// The tint that a size is shown in: dimmed below 1 KiB, plain below 1 MiB,
/// cyan below 10 MiB, yellow below 100 MiB, bold red below 1 GiB, bold
/// magenta from there on.
pub open spec fn size_tint(bytes: nat) -> Tint {
    if bytes < 1024 { Tint::Dimmed }
    else if bytes < 1048576 { Tint::Normal }
    else if bytes < 10485760 { Tint::Cyan }
    else if bytes < 104857600 { Tint::Yellow }
    else if bytes < 1073741824 { Tint::RedBold }
    else { Tint::MagentaBold }
}

/// The tint that a size of `bytes` bytes is shown in.
pub fn size_tint_of(bytes: u64) -> (t: Tint)
    ensures
        t == size_tint(bytes as nat),
{
    if bytes < 1024 {
        Tint::Dimmed
    } else if bytes < 1048576 {
        Tint::Normal
    } else if bytes < 10485760 {
        Tint::Cyan
    } else if bytes < 104857600 {
        Tint::Yellow
    } else if bytes < 1073741824 {
        Tint::RedBold
    } else {
        Tint::MagentaBold
    }
}

/// The tint bands by their bounds: dimmed below 1024 bytes, plain from 1024
/// below 1048576, cyan from 1048576 below 10485760, yellow from 10485760
/// below 104857600, bold red from 104857600 below 1073741824, bold magenta
/// from 1073741824 on.
pub proof fn lemma_size_tint_bands(b: nat)
    ensures
        b < 1024 ==> size_tint(b) == Tint::Dimmed,
        1024 <= b < 1048576 ==> size_tint(b) == Tint::Normal,
        1048576 <= b < 10485760 ==> size_tint(b) == Tint::Cyan,
        10485760 <= b < 104857600 ==> size_tint(b) == Tint::Yellow,
        104857600 <= b < 1073741824 ==> size_tint(b) == Tint::RedBold,
        1073741824 <= b ==> size_tint(b) == Tint::MagentaBold,
{
}

/// Paints the text `s` of a size of `bytes` bytes in the tint of that size:
/// `colored` records that tint's look, and the text is `s` painted with it.
pub fn apply_color(s: String, bytes: u64) -> (r: Painted)
    ensures
        painted_with(size_tint(bytes as nat), s@, r),
{
    paint(s.as_str(), size_tint_of(bytes))
}

/// The tint of the label of an entry of kind `kind`: bold for directories,
/// dimmed for symbolic links, none for files.
pub open spec fn kind_tint(kind: EntryKind) -> Tint {
    match kind {
        EntryKind::Dir { .. } => Tint::Bold,
        EntryKind::Symlink => Tint::Dimmed,
        EntryKind::File => Tint::Normal,
    }
}

/// The tint of the label of an entry of kind `kind`.
pub fn label_tint_of(kind: &EntryKind) -> (t: Tint)
    ensures
        t == kind_tint(*kind),
{
    match kind {
        EntryKind::Dir { .. } => Tint::Bold,
        EntryKind::Symlink => Tint::Dimmed,
        EntryKind::File => Tint::Normal,
    }
}

/// The widest size text among `s` (0 when `s` is empty).
pub open spec fn widest_size(s: Seq<Entry>) -> nat
    decreases s.len(),
{
    if s.len() == 0 {
        0
    } else {
        let rest = widest_size(s.drop_last());
        let w = size_text(s.last().size as nat).len();
        if rest >= w { rest } else { w }
    }
}

/// `n` spaces.
pub open spec fn spaces(n: nat) -> Seq<char> {
    Seq::new(n, |i: int| ' ')
}

/// `s` right-aligned in a field of `width` characters.
pub open spec fn pad_left(s: Seq<char>, width: nat) -> Seq<char> {
    if s.len() < width {
        spaces((width - s.len()) as nat) + s
    } else {
        s
    }
}

/// The connector in front of an entry: a corner for the last of its
/// siblings, a branch for the others.
pub open spec fn connector(is_last: bool) -> Seq<char> {
    if is_last {
        seq!['└', '─', '─', ' ']
    } else {
        seq!['├', '─', '─', ' ']
    }
}

/// What the children of an entry are indented by, past the entry's own
/// indentation: blank under the last sibling, a pipe under the others.
pub open spec fn extension(is_last: bool) -> Seq<char> {
    if is_last {
        seq![' ', ' ', ' ', ' ']
    } else {
        seq!['│', ' ', ' ', ' ']
    }
}

/// One line of the tree before painting: the entry, the indentation before
/// its connector, whether it is the last of its siblings, and the width of
/// the size column among them.
pub struct Row {
    pub entry: Entry,
    pub prefix: Seq<char>,
    pub is_last: bool,
    pub width: nat,
}

/// The rows of an entry and of everything below it, in depth-first order.
pub open spec fn entry_rows(e: Entry, prefix: Seq<char>, is_last: bool, width: nat) -> Seq<Row>
    decreases e, 0int,
{
    seq![Row { entry: e, prefix, is_last, width }] + match e.kind {
        EntryKind::Dir { children } => children_rows(
            children@,
            0,
            prefix + extension(is_last),
            widest_size(children@),
        ),
        _ => Seq::empty(),
    }
}

/// The rows of the siblings `cs[i..]` and of everything below them.
pub open spec fn children_rows(cs: Seq<Entry>, i: int, prefix: Seq<char>, width: nat) -> Seq<Row>
    decreases cs, cs.len() - i,
{
    if 0 <= i < cs.len() {
        entry_rows(cs[i], prefix, i == cs.len() - 1, width) + children_rows(cs, i + 1, prefix, width)
    } else {
        Seq::empty()
    }
}

/// The rows below the root of a tree.
pub open spec fn tree_rows(root: Entry) -> Seq<Row> {
    match root.kind {
        EntryKind::Dir { children } => children_rows(children@, 0, Seq::empty(), widest_size(children@)),
        _ => Seq::empty(),
    }
}

/// The size column of a row, before painting.
pub open spec fn size_cell(row: Row) -> Seq<char> {
    pad_left(size_text(row.entry.size as nat), row.width)
}

/// The label of a row, before painting: a directory's name with a slash, a
/// symbolic link's name with an arrow, a file's name as it is.
pub open spec fn row_label(row: Row) -> Seq<char> {
    match row.entry.kind {
        EntryKind::Dir { .. } => row.entry.name@ + seq!['/'],
        EntryKind::Symlink => row.entry.name@ + seq![' ', '-', '>'],
        EntryKind::File => row.entry.name@,
    }
}

/// The tint of a row's label: bold for directories, dimmed for symbolic
/// links, none for files.
pub open spec fn label_tint(row: Row) -> Tint {
    kind_tint(row.entry.kind)
}

/// The space between the size column and the label: two spaces, and one
/// more before a directory that has children listed.
pub open spec fn gap(row: Row) -> Seq<char> {
    match row.entry.kind {
        EntryKind::Dir { children } => if children.len() == 0 {
            seq![' ', ' ']
        } else {
            seq![' ', ' ', ' ']
        },
        _ => seq![' ', ' '],
    }
}

/// A row's line, given its painted size column and painted label.
pub open spec fn row_line(row: Row, size: Seq<char>, label: Seq<char>) -> Seq<char> {
    row.prefix + connector(row.is_last) + size + gap(row) + label
}

/// `line` shows `row`, whatever the colours were.
pub open spec fn line_ok(row: Row, line: Seq<char>) -> bool {
    exists|size: Seq<char>, label: Seq<char>|
        #![trigger row_line(row, size, label)]
        tinted(size_tint(row.entry.size as nat), size_cell(row), size)
            && tinted(label_tint(row), row_label(row), label)
            && line == row_line(row, size, label)
}

/// The first line: the display name, then the root's size in brackets.
pub open spec fn header_line(name: Seq<char>, size: Seq<char>) -> Seq<char> {
    name + seq![' ', '('] + size + seq![')']
}

/// `line` is the first line for a root of `bytes` bytes shown as `name`.
pub open spec fn header_ok(name: Seq<char>, bytes: nat, line: Seq<char>) -> bool {
    exists|size: Seq<char>|
        #![trigger header_line(name, size)]
        tinted(size_tint(bytes), size_text(bytes), size) && line == header_line(name, size)
}

/// The lines joined by newlines.
pub open spec fn join_lines(ls: Seq<Seq<char>>) -> Seq<char>
    decreases ls.len(),
{
    if ls.len() == 0 {
        Seq::empty()
    } else if ls.len() == 1 {
        ls[0]
    } else {
        join_lines(ls.drop_last()) + seq!['\n'] + ls.last()
    }
}

/// The texts of strings.
pub open spec fn texts(v: Seq<String>) -> Seq<Seq<char>> {
    v.map_values(|s: String| s@)
}


/// The widest size text of the first `i + 1` entries is the wider of that of
/// the first `i` and the size text of entry `i`.
proof fn lemma_max_width_step(s: Seq<Entry>, i: int)
    requires
        0 <= i < s.len(),
    ensures
        widest_size(s.take(i + 1)) == if widest_size(s.take(i)) >= size_text(s[i].size as nat).len() {
            widest_size(s.take(i))
        } else {
            size_text(s[i].size as nat).len()
        },
{
    assert(s.take(i + 1).drop_last() =~= s.take(i));
    assert(s.take(i + 1).last() == s[i]);
}

/// The width of the size column among `entries`: the widest of their size
/// texts, in characters (size texts are ASCII, so in bytes alike).
pub fn max_size_width(entries: &Vec<Entry>) -> (w: usize)
    ensures
        w == widest_size(entries@),
{
    let mut w: usize = 0;
    let mut i: usize = 0;
    assert(entries@.take(0) =~= Seq::<Entry>::empty());
    while i < entries.len()
        invariant
            i <= entries.len(),
            w == widest_size(entries@.take(i as int)),
        decreases entries.len() - i,
    {
        proof {
            lemma_max_width_step(entries@, i as int);
        }
        let text = format_size(entries[i].size);
        let len = text.as_str().unicode_len();
        if len > w {
            w = len;
        }
        i = i + 1;
    }
    assert(entries@.take(i as int) =~= entries@);
    w
}

/// `s` right-aligned in a field of `width` characters.
fn pad_to(s: String, width: usize) -> (r: String)
    ensures
        r@ == pad_left(s@, width as nat),
{
    let len = s.as_str().unicode_len();
    if len >= width {
        return s;
    }
    proof {
        reveal_strlit(" ");
    }
    let mut r = String::new();
    let mut k: usize = 0;
    assert(r@ =~= spaces(0));
    while k < width - len
        invariant
            len < width,
            k <= width - len,
            r@ == spaces(k as nat),
            " "@ == seq![' '],
        decreases width - len - k,
    {
        r.append(" ");
        k = k + 1;
        assert(r@ =~= spaces(k as nat));
    }
    r.append(s.as_str());
    r
}

/// The line of one row.
fn row_text(entry: &Entry, prefix: &str, is_last: bool, size_width: usize) -> (line: String)
    ensures
        line_ok(Row { entry: *entry, prefix: prefix@, is_last, width: size_width as nat }, line@),
{
    let ghost row = Row { entry: *entry, prefix: prefix@, is_last, width: size_width as nat };
    proof {
        reveal_strlit("└── ");
        reveal_strlit("├── ");
        reveal_strlit("  ");
        reveal_strlit(" ");
        reveal_strlit("/");
        reveal_strlit(" ->");
    }
    let corner = if is_last { "└── " } else { "├── " };
    let padded = pad_to(format_size(entry.size), size_width);
    let size_str = apply_color(padded, entry.size).text;
    assert(tinted(size_tint(entry.size as nat), size_cell(row), size_str@));
    let tint = label_tint_of(&entry.kind);
    let mut line = String::new();
    line.append(prefix);
    line.append(corner);
    line.append(size_str.as_str());
    line.append("  ");
    match &entry.kind {
        EntryKind::Dir { children } => {
            let mut label = entry.name.clone();
            label.append("/");
            let painted = paint(label.as_str(), tint).text;
            if children.len() != 0 {
                line.append(" ");
            }
            line.append(painted.as_str());
            assert(label@ == row_label(row));
            assert(tinted(label_tint(row), row_label(row), painted@));
            assert(row_line(row, size_str@, painted@) =~= line@);
        },
        EntryKind::File => {
            line.append(entry.name.as_str());
            assert(tinted(label_tint(row), row_label(row), entry.name@));
            assert(row_line(row, size_str@, entry.name@) =~= line@);
        },
        EntryKind::Symlink => {
            let mut label = entry.name.clone();
            label.append(" ->");
            let painted = paint(label.as_str(), tint).text;
            line.append(painted.as_str());
            assert(label@ == row_label(row));
            assert(tinted(label_tint(row), row_label(row), painted@));
            assert(row_line(row, size_str@, painted@) =~= line@);
        },
    }
    line
}

/// Appends the lines of `entry` and of everything below it.
fn render_entry(entry: &Entry, prefix: &str, is_last: bool, size_width: usize, lines: &mut Vec<String>)
    ensures
        final(lines)@.len() == old(lines)@.len() + entry_rows(*entry, prefix@, is_last, size_width as nat).len(),
        forall|j: int| 0 <= j < old(lines)@.len() ==> #[trigger] final(lines)@[j] == old(lines)@[j],
        forall|k: int|
            0 <= k < entry_rows(*entry, prefix@, is_last, size_width as nat).len() ==> line_ok(
                #[trigger] entry_rows(*entry, prefix@, is_last, size_width as nat)[k],
                final(lines)@[old(lines)@.len() + k]@,
            ),
    decreases entry,
{
    let ghost rows = entry_rows(*entry, prefix@, is_last, size_width as nat);
    let ghost base = old(lines)@.len();
    let line = row_text(entry, prefix, is_last, size_width);
    lines.push(line);
    match &entry.kind {
        EntryKind::Dir { children } => {
            proof {
                reveal_strlit("    ");
                reveal_strlit("│   ");
            }
            let indent = if is_last { "    " } else { "│   " };
            let mut new_prefix = String::new();
            new_prefix.append(prefix);
            new_prefix.append(indent);
            let child_width = max_size_width(children);
            let ghost cs = children@;
            let ghost child_prefix = new_prefix@;
            assert(child_prefix == prefix@ + extension(is_last));
            let ghost mut done: Seq<Row> = Seq::empty();
            assert(rows == seq![rows[0]] + children_rows(cs, 0, child_prefix, child_width as nat));
            let mut i: usize = 0;
            while i < children.len()
                invariant
                    i <= children.len(),
                    cs == children@,
                    entry.kind is Dir,
                    entry.kind->children == *children,
                    rows == entry_rows(*entry, prefix@, is_last, size_width as nat),
                    rows == seq![rows[0]] + done + children_rows(cs, i as int, child_prefix, child_width as nat),
                    child_prefix == new_prefix@,
                    child_width == widest_size(cs),
                    lines@.len() == base + 1 + done.len(),
                    forall|j: int| 0 <= j < base ==> #[trigger] lines@[j] == old(lines)@[j],
                    line_ok(rows[0], lines@[base as int]@),
                    forall|k: int| 0 <= k < done.len() ==> line_ok(#[trigger] done[k], lines@[base + 1 + k]@),
                decreases children.len() - i,
            {
                proof {
                    assert(decreases_to!(entry.kind => entry.kind->children));
                    assert(decreases_to!(*children => children@));
                    assert(decreases_to!(children@ => children@[i as int]));
                }
                let ghost before = lines@;
                let ghost part = entry_rows(cs[i as int], child_prefix, i == children.len() - 1, child_width as nat);
                render_entry(&children[i], new_prefix.as_str(), i == children.len() - 1, child_width, lines);
                proof {
                    assert(children_rows(cs, i as int, child_prefix, child_width as nat)
                        == part + children_rows(cs, i + 1, child_prefix, child_width as nat));
                    assert forall|k: int| 0 <= k < done.len() + part.len() implies line_ok(
                        #[trigger] (done + part)[k],
                        lines@[base + 1 + k]@,
                    ) by {
                        if k < done.len() {
                            assert(lines@[base + 1 + k] == before[base + 1 + k]);
                        } else {
                            assert(part[k - done.len()] == (done + part)[k]);
                        }
                    }
                    assert(lines@[base as int] == before[base as int]);
                    done = done + part;
                    assert(rows =~= seq![rows[0]] + done + children_rows(cs, i + 1, child_prefix, child_width as nat));
                }
                i = i + 1;
            }
            proof {
                assert(children_rows(cs, i as int, child_prefix, child_width as nat) =~= Seq::<Row>::empty());
                assert(rows =~= seq![rows[0]] + done);
                assert forall|k: int| 0 <= k < rows.len() implies line_ok(
                    #[trigger] rows[k],
                    lines@[base + k]@,
                ) by {
                    if k > 0 {
                        assert(rows[k] == done[k - 1]);
                    }
                }
            }
        },
        _ => {
            assert(rows =~= seq![rows[0]]);
        },
    }
}


/// The rows of an entry are one per entry of its tree.
pub proof fn lemma_entry_rows_count(e: Entry, prefix: Seq<char>, is_last: bool, width: nat)
    ensures
        entry_rows(e, prefix, is_last, width).len() == node_count(e),
    decreases e, 0int,
{
    match e.kind {
        EntryKind::Dir { children } => {
            assert(decreases_to!(e => e.kind));
            assert(decreases_to!(e.kind => e.kind->children));
            assert(decreases_to!(children => children@));
            lemma_children_rows_count(children@, 0, prefix + extension(is_last), widest_size(children@));
            assert(children@.skip(0) =~= children@);
        },
        _ => {},
    }
}

/// The rows of the siblings `cs[i..]` are one per entry of their trees.
pub proof fn lemma_children_rows_count(cs: Seq<Entry>, i: int, prefix: Seq<char>, width: nat)
    requires
        0 <= i <= cs.len(),
    ensures
        children_rows(cs, i, prefix, width).len() == forest_node_count(cs.skip(i)),
    decreases cs, cs.len() - i,
{
    if i < cs.len() {
        assert(decreases_to!(cs => cs[i]));
        lemma_entry_rows_count(cs[i], prefix, i == cs.len() - 1, width);
        lemma_children_rows_count(cs, i + 1, prefix, width);
        assert(cs.skip(i).drop_first() =~= cs.skip(i + 1));
        assert(cs.skip(i)[0] == cs[i]);
    } else {
        assert(cs.skip(i) =~= Seq::<Entry>::empty());
    }
}

/// The tree view has one line for the root and one for each entry below it:
/// as many lines as the tree has entries.
pub proof fn lemma_tree_rows_count(root: Entry)
    ensures
        tree_rows(root).len() + 1 == node_count(root),
{
    match root.kind {
        EntryKind::Dir { children } => {
            lemma_children_rows_count(children@, 0, Seq::empty(), widest_size(children@));
            assert(children@.skip(0) =~= children@);
        },
        _ => {},
    }
}

/// Every size text among `cs` fits the size column of `cs`.
pub proof fn lemma_size_fits_column(cs: Seq<Entry>, i: int)
    requires
        0 <= i < cs.len(),
    ensures
        size_text(cs[i].size as nat).len() <= widest_size(cs),
    decreases cs.len(),
{
    if i < cs.len() - 1 {
        lemma_size_fits_column(cs.drop_last(), i);
    }
}

/// Siblings line up: the size column of each of them is exactly as wide as
/// the widest size text among them, whatever the row's place and indentation.
pub proof fn lemma_sibling_sizes_aligned(cs: Seq<Entry>, i: int, prefix: Seq<char>, is_last: bool)
    requires
        0 <= i < cs.len(),
    ensures
        size_cell(Row { entry: cs[i], prefix, is_last, width: widest_size(cs) }).len()
            == widest_size(cs),
{
    lemma_size_fits_column(cs, i);
}

/// The number of rows of the siblings `cs[j..i]` and everything below them.
pub open spec fn rows_before(cs: Seq<Entry>, j: int, i: int, prefix: Seq<char>, width: nat) -> int
    decreases i - j,
{
    if 0 <= j < i && j < cs.len() {
        entry_rows(cs[j], prefix, j == cs.len() - 1, width).len() + rows_before(cs, j + 1, i, prefix, width)
    } else {
        0
    }
}

/// The rows of sibling `cs[i]` and of everything below it stand as one block
/// among the rows of the siblings `cs[j..]`, after those of `cs[j..i]`.
proof fn lemma_sibling_block(cs: Seq<Entry>, j: int, i: int, prefix: Seq<char>, width: nat)
    requires
        0 <= j <= i < cs.len(),
    ensures
        0 <= rows_before(cs, j, i, prefix, width),
        rows_before(cs, j, i, prefix, width) + entry_rows(cs[i], prefix, i == cs.len() - 1, width).len()
            <= children_rows(cs, j, prefix, width).len(),
        children_rows(cs, j, prefix, width).subrange(
            rows_before(cs, j, i, prefix, width),
            rows_before(cs, j, i, prefix, width) + entry_rows(cs[i], prefix, i == cs.len() - 1, width).len(),
        ) == entry_rows(cs[i], prefix, i == cs.len() - 1, width),
    decreases i - j,
{
    let block = entry_rows(cs[i], prefix, i == cs.len() - 1, width);
    let all = children_rows(cs, j, prefix, width);
    if j == i {
        assert(all == block + children_rows(cs, i + 1, prefix, width));
        assert(all.subrange(0, block.len() as int) =~= block);
    } else {
        lemma_sibling_block(cs, j + 1, i, prefix, width);
        let first = entry_rows(cs[j], prefix, j == cs.len() - 1, width);
        let rest = children_rows(cs, j + 1, prefix, width);
        let off = rows_before(cs, j + 1, i, prefix, width);
        assert(rows_before(cs, j, i, prefix, width) == first.len() + off);
        assert(all == first + rest);
        assert(all.subrange(first.len() + off, first.len() + off + block.len())
            =~= rest.subrange(off, off + block.len()));
    }
}

/// Some sibling of `cs` has a size text exactly as wide as the size column of
/// `cs`.
proof fn lemma_widest_attained(cs: Seq<Entry>) -> (j: int)
    requires
        cs.len() > 0,
    ensures
        0 <= j < cs.len(),
        widest_size(cs) == size_text(cs[j].size as nat).len(),
    decreases cs.len(),
{
    let last = cs.len() - 1;
    assert(cs.last() == cs[last]);
    if cs.len() == 1 {
        assert(cs.drop_last().len() == 0);
        assert(widest_size(cs.drop_last()) == 0);
        last
    } else {
        let rest = cs.drop_last();
        let j = lemma_widest_attained(rest);
        assert(rest[j] == cs[j]);
        assert(cs.last() == cs[last]);
        if widest_size(rest) >= size_text(cs[last].size as nat).len() {
            j
        } else {
            last
        }
    }
}

/// How a directory's rows hold each child: the child's rows stand as one
/// block after the directory's own row; the child's row is indented by the
/// directory's indentation followed by four blanks when the directory is the
/// last of its siblings, or a bar and three blanks when it is not; it carries
/// the corner exactly when the child is the last one; and its size column is
/// exactly as wide as the widest size text among the directory's children,
/// whatever width the directory's own row has.
pub proof fn lemma_child_rows(e: Entry, prefix: Seq<char>, is_last: bool, width: nat, i: int) -> (k: int)
    requires
        e.kind is Dir,
        0 <= i < e.kind->children@.len(),
    ensures
        1 <= k,
        k + entry_rows(
            e.kind->children@[i],
            entry_rows(e, prefix, is_last, width)[k].prefix,
            entry_rows(e, prefix, is_last, width)[k].is_last,
            entry_rows(e, prefix, is_last, width)[k].width,
        ).len() <= entry_rows(e, prefix, is_last, width).len(),
        entry_rows(e, prefix, is_last, width).subrange(
            k,
            k + entry_rows(
                e.kind->children@[i],
                entry_rows(e, prefix, is_last, width)[k].prefix,
                entry_rows(e, prefix, is_last, width)[k].is_last,
                entry_rows(e, prefix, is_last, width)[k].width,
            ).len(),
        ) == entry_rows(
            e.kind->children@[i],
            entry_rows(e, prefix, is_last, width)[k].prefix,
            entry_rows(e, prefix, is_last, width)[k].is_last,
            entry_rows(e, prefix, is_last, width)[k].width,
        ),
        entry_rows(e, prefix, is_last, width)[k].entry == e.kind->children@[i],
        entry_rows(e, prefix, is_last, width)[k].prefix == prefix + if is_last {
            seq![' ', ' ', ' ', ' ']
        } else {
            seq!['│', ' ', ' ', ' ']
        },
        entry_rows(e, prefix, is_last, width)[k].is_last == (i == e.kind->children@.len() - 1),
        forall|j: int|
            0 <= j < e.kind->children@.len() ==> size_text(#[trigger] e.kind->children@[j].size as nat).len()
                <= size_cell(entry_rows(e, prefix, is_last, width)[k]).len(),
        exists|j: int|
            0 <= j < e.kind->children@.len() && size_text(#[trigger] e.kind->children@[j].size as nat).len()
                == size_cell(entry_rows(e, prefix, is_last, width)[k]).len(),
{
    let cs = e.kind->children@;
    let rows = entry_rows(e, prefix, is_last, width);
    let child_prefix = prefix + extension(is_last);
    let w = widest_size(cs);
    let below = children_rows(cs, 0, child_prefix, w);
    let head = Row { entry: e, prefix, is_last, width };
    assert(rows == seq![head] + below);
    assert(rows.len() == 1 + below.len());
    lemma_sibling_block(cs, 0, i, child_prefix, w);
    let off = rows_before(cs, 0, i, child_prefix, w);
    let block = entry_rows(cs[i], child_prefix, i == cs.len() - 1, w);
    let k = 1 + off;
    assert(rows.subrange(k, k + block.len()) =~= below.subrange(off, off + block.len()));
    assert(block.len() >= 1);
    assert(rows[k] == rows.subrange(k, k + block.len())[0]);
    assert(rows[k] == block[0]);
    assert(block[0] == Row { entry: cs[i], prefix: child_prefix, is_last: i == cs.len() - 1, width: w });
    lemma_size_fits_column(cs, i);
    assert(size_cell(rows[k]).len() == w);
    assert forall|j: int| 0 <= j < cs.len() implies size_text(#[trigger] cs[j].size as nat).len()
        <= size_cell(rows[k]).len() by {
        lemma_size_fits_column(cs, j);
    }
    let jm = lemma_widest_attained(cs);
    assert(size_text(cs[jm].size as nat).len() == size_cell(rows[k]).len());
    k
}

/// How the tree view holds each child of the root: the child's rows stand as
/// one block, the child's row has no indentation, carries the corner exactly
/// when the child is the last one, and its size column is exactly as wide as
/// the widest size text among the root's children.
pub proof fn lemma_top_rows(root: Entry, i: int) -> (k: int)
    requires
        root.kind is Dir,
        0 <= i < root.kind->children@.len(),
    ensures
        0 <= k,
        k + entry_rows(root.kind->children@[i], Seq::empty(), tree_rows(root)[k].is_last, tree_rows(root)[k].width).len()
            <= tree_rows(root).len(),
        tree_rows(root).subrange(
            k,
            k + entry_rows(root.kind->children@[i], Seq::empty(), tree_rows(root)[k].is_last, tree_rows(root)[k].width).len(),
        ) == entry_rows(root.kind->children@[i], Seq::empty(), tree_rows(root)[k].is_last, tree_rows(root)[k].width),
        tree_rows(root)[k].entry == root.kind->children@[i],
        tree_rows(root)[k].prefix == Seq::<char>::empty(),
        tree_rows(root)[k].is_last == (i == root.kind->children@.len() - 1),
        forall|j: int|
            0 <= j < root.kind->children@.len() ==> size_text(#[trigger] root.kind->children@[j].size as nat).len()
                <= size_cell(tree_rows(root)[k]).len(),
        exists|j: int|
            0 <= j < root.kind->children@.len() && size_text(#[trigger] root.kind->children@[j].size as nat).len()
                == size_cell(tree_rows(root)[k]).len(),
{
    let cs = root.kind->children@;
    let rows = tree_rows(root);
    let w = widest_size(cs);
    let empty = Seq::<char>::empty();
    assert(rows == children_rows(cs, 0, empty, w));
    lemma_sibling_block(cs, 0, i, empty, w);
    let k = rows_before(cs, 0, i, empty, w);
    let block = entry_rows(cs[i], empty, i == cs.len() - 1, w);
    assert(block.len() >= 1);
    assert(rows[k] == rows.subrange(k, k + block.len())[0]);
    assert(rows[k] == block[0]);
    lemma_size_fits_column(cs, i);
    assert forall|j: int| 0 <= j < cs.len() implies size_text(#[trigger] cs[j].size as nat).len()
        <= size_cell(rows[k]).len() by {
        lemma_size_fits_column(cs, j);
    }
    let jm = lemma_widest_attained(cs);
    assert(size_text(cs[jm].size as nat).len() == size_cell(rows[k]).len());
    k
}

/// The lines joined by newlines.
fn join(lines: &Vec<String>) -> (r: String)
    ensures
        r@ == join_lines(texts(lines@)),
{
    proof {
        reveal_strlit("\n");
    }
    let mut r = String::new();
    let mut i: usize = 0;
    assert(texts(lines@).take(0) =~= Seq::<Seq<char>>::empty());
    while i < lines.len()
        invariant
            i <= lines.len(),
            r@ == join_lines(texts(lines@).take(i as int)),
            "\n"@ == seq!['\n'],
        decreases lines.len() - i,
    {
        let ghost ts = texts(lines@);
        assert(ts.take(i + 1).drop_last() =~= ts.take(i as int));
        assert(ts.take(i + 1).last() == lines@[i as int]@);
        if i > 0 {
            r.append("\n");
        } else {
            assert(ts.take(1) =~= seq![lines@[0]@]);
        }
        r.append(lines[i].as_str());
        i = i + 1;
    }
    assert(texts(lines@).take(i as int) =~= texts(lines@));
    r
}

/// Draws the tree under `root`: a first line with `display_name` and the
/// root's size in brackets, then, when the root is a directory, one line per
/// entry below it in depth-first order, children in the order they are
/// held.  Each line shows its indentation, a connector (`└── ` for the last
/// of its siblings, `├── ` for the others), the entry's size right-aligned to
/// the widest size among its siblings, and its label: a directory's name
/// with `/`, a symbolic link's name with ` ->`, a file's name.  Sizes are
/// painted by magnitude, directory labels bold and link labels dimmed, when
/// `colored` paints at all.  Lines are joined by newlines.
pub fn render_tree(root: &Entry, display_name: &str) -> (out: String)
    ensures
        exists|ls: Seq<Seq<char>>|
            #![trigger join_lines(ls)]
            out@ == join_lines(ls)
                && ls.len() == tree_rows(*root).len() + 1
                && ls.len() == node_count(*root)
                && header_ok(display_name@, root.size as nat, ls[0])
                && forall|k: int| 0 <= k < tree_rows(*root).len()
                    ==> line_ok(#[trigger] tree_rows(*root)[k], ls[k + 1]),
{
    proof {
        reveal_strlit(" (");
        reveal_strlit(")");
    }
    let mut lines: Vec<String> = Vec::new();
    let size_str = apply_color(format_size(root.size), root.size).text;
    let mut head = String::new();
    head.append(display_name);
    head.append(" (");
    head.append(size_str.as_str());
    head.append(")");
    assert(header_line(display_name@, size_str@) =~= head@);
    lines.push(head);
    let ghost rows = tree_rows(*root);
    match &root.kind {
        EntryKind::Dir { children } => {
            let width = max_size_width(children);
            let ghost cs = children@;
            let ghost empty_prefix: Seq<char> = Seq::empty();
            proof {
                reveal_strlit("");
            }
            let ghost mut done: Seq<Row> = Seq::empty();
            let mut i: usize = 0;
            while i < children.len()
                invariant
                    i <= children.len(),
                    cs == children@,
                    ""@ == empty_prefix,
                    rows == tree_rows(*root),
                    root.kind is Dir,
                    root.kind->children == *children,
                    rows == done + children_rows(cs, i as int, empty_prefix, width as nat),
                    width == widest_size(cs),
                    lines@.len() == 1 + done.len(),
                    header_ok(display_name@, root.size as nat, lines@[0]@),
                    forall|k: int| 0 <= k < done.len() ==> line_ok(#[trigger] done[k], lines@[1 + k]@),
                decreases children.len() - i,
            {
                let ghost before = lines@;
                let ghost part = entry_rows(cs[i as int], empty_prefix, i == children.len() - 1, width as nat);
                render_entry(&children[i], "", i == children.len() - 1, width, &mut lines);
                proof {
                    assert(children_rows(cs, i as int, empty_prefix, width as nat)
                        == part + children_rows(cs, i + 1, empty_prefix, width as nat));
                    assert forall|k: int| 0 <= k < done.len() + part.len() implies line_ok(
                        #[trigger] (done + part)[k],
                        lines@[1 + k]@,
                    ) by {
                        if k < done.len() {
                            assert(lines@[1 + k] == before[1 + k]);
                        } else {
                            assert(part[k - done.len()] == (done + part)[k]);
                        }
                    }
                    assert(lines@[0] == before[0]);
                    done = done + part;
                    assert(rows =~= done + children_rows(cs, i + 1, empty_prefix, width as nat));
                }
                i = i + 1;
            }
            assert(children_rows(cs, i as int, empty_prefix, width as nat) =~= Seq::<Row>::empty());
            assert(rows =~= done);
        },
        _ => {
            assert(rows =~= Seq::<Row>::empty());
        },
    }
    let out = join(&lines);
    proof {
        lemma_tree_rows_count(*root);
        let ls = texts(lines@);
        assert(ls.len() == rows.len() + 1);
        assert(forall|k: int| 0 <= k < ls.len() ==> ls[k] == #[trigger] lines@[k]@);
        assert(out@ == join_lines(ls));
    }
    out
}

} // verus!
