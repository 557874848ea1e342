use vstd::prelude::*;
use vstd::string::*;
use crate::text::{decimal_string, decimal_text};
use crate::types::{ListElement, ListItemView, Run, RunView, TableElement, TableRow, TextElement};
use crate::types::run_markdown;

verus! {

/// The Markdown of the runs, one behind the other.
pub open spec fn runs_markdown(runs: Seq<RunView>) -> Seq<char>
    decreases runs.len(),
{
    if runs.len() == 0 {
        Seq::empty()
    } else {
        runs_markdown(runs.drop_last()) + run_markdown(runs.last())
    }
}

/// The texts of the runs as they stand, one behind the other.
pub open spec fn runs_text(runs: Seq<RunView>) -> Seq<char>
    decreases runs.len(),
{
    if runs.len() == 0 {
        Seq::empty()
    } else {
        runs_text(runs.drop_last()) + runs.last().text
    }
}

/// The Markdown of a shape of plain text: its runs, then a line break.
pub open spec fn text_markdown(runs: Seq<RunView>) -> Seq<char> {
    runs_markdown(runs) + "\n"@
}

/// The parts with `separator` between each two neighbours.
pub open spec fn joined(parts: Seq<Seq<char>>, separator: Seq<char>) -> Seq<char>
    decreases parts.len(),
{
    if parts.len() == 0 {
        Seq::empty()
    } else if parts.len() == 1 {
        parts[0]
    } else {
        joined(parts.drop_last(), separator) + separator + parts.last()
    }
}

/// The text of each cell of a row.
pub open spec fn cell_texts(cells: Seq<Seq<RunView>>) -> Seq<Seq<char>> {
    Seq::new(cells.len(), |j: int| runs_text(cells[j]))
}

/// One line of a Markdown table: the cell texts between bars.
pub open spec fn row_line(cells: Seq<Seq<RunView>>) -> Seq<char> {
    "| "@ + joined(cell_texts(cells), " | "@) + " |"@ + "\n"@
}

/// The cells of the line that parts a table's header from its body.
pub open spec fn separator_cells(columns: nat) -> Seq<Seq<char>> {
    Seq::new(columns, |j: int| " --- "@)
}

/// The line that parts a table's header from its body.
pub open spec fn separator_line(columns: nat) -> Seq<char> {
    "|"@ + joined(separator_cells(columns), "|"@) + "|"@ + "\n"@
}

/// The lines of the given rows: one line each, and the separator line
/// behind the first.
pub open spec fn rows_markdown(rows: Seq<Seq<Seq<RunView>>>) -> Seq<char>
    decreases rows.len(),
{
    if rows.len() == 0 {
        Seq::empty()
    } else if rows.len() == 1 {
        row_line(rows[0]) + separator_line(rows[0].len())
    } else {
        rows_markdown(rows.drop_last()) + row_line(rows.last())
    }
}

/// The Markdown of a table: its lines, then a line break.
pub open spec fn table_markdown(rows: Seq<Seq<Seq<RunView>>>) -> Seq<char> {
    rows_markdown(rows) + "\n"@
}

/// The running counters of a list: one per level that is open, and the level
/// of the item before.
pub struct ListCounters {
    pub counters: Seq<nat>,
    pub previous_level: nat,
}

/// The counters before the first item of a list.
pub open spec fn counters_at_start() -> ListCounters {
    ListCounters { counters: Seq::empty(), previous_level: 0 }
}

/// The counters after an item of the given level: a level not seen before
/// gets counters of 0 up to it; a level deeper than the one before starts
/// again from 0; a shallower one drops the counters of all deeper levels;
/// then the level's counter goes up by one.
pub open spec fn counters_after(state: ListCounters, level: nat) -> ListCounters {
    let grown = if level >= state.counters.len() {
        state.counters + Seq::new((level + 1 - state.counters.len()) as nat, |k: int| 0nat)
    } else {
        state.counters
    };
    let adjusted = if level > state.previous_level {
        grown.update(level as int, 0nat)
    } else if level < state.previous_level {
        grown.take(level as int + 1)
    } else {
        grown
    };
    ListCounters {
        counters: adjusted.update(level as int, adjusted[level as int] + 1),
        previous_level: level,
    }
}

/// The counters after all of the given items.
pub open spec fn counters_after_all(items: Seq<ListItemView>) -> ListCounters
    decreases items.len(),
{
    if items.len() == 0 {
        counters_at_start()
    } else {
        counters_after(counters_after_all(items.drop_last()), items.last().level as nat)
    }
}

/// One tab character per level.
pub open spec fn indent(level: nat) -> Seq<char> {
    Seq::new(level, |k: int| '\t')
}

/// What stands in front of an item's text: the indent, then the number and
/// a full stop for an ordered item, a hyphen for another, and a space.
pub open spec fn item_marker(level: nat, is_ordered: bool, number: nat) -> Seq<char> {
    if is_ordered {
        indent(level) + decimal_text(number) + ". "@
    } else {
        indent(level) + "- "@
    }
}

/// The lines of the given items of a list.
pub open spec fn items_markdown(items: Seq<ListItemView>) -> Seq<char>
    decreases items.len(),
{
    if items.len() == 0 {
        Seq::empty()
    } else {
        let item = items.last();
        let number = counters_after_all(items).counters[item.level as int];
        items_markdown(items.drop_last()) + item_marker(item.level as nat, item.is_ordered, number)
            + runs_text(item.runs) + "\n"@
    }
}

/// Appends the texts of the runs as they stand.
pub fn append_runs_text(out: &mut String, runs: &Vec<Run>)
    ensures
        final(out)@ == old(out)@ + runs_text(runs.deep_view()),
{
    let ghost start = out@;
    let ghost views = runs.deep_view();
    let mut i: usize = 0;
    proof {
        assert(views.take(0) =~= Seq::<RunView>::empty());
        assert(start + Seq::<char>::empty() =~= start);
    }
    while i < runs.len()
        invariant
            i <= runs.len(),
            views == runs.deep_view(),
            out@ == start + runs_text(views.take(i as int)),
        decreases runs.len() - i,
    {
        out.append(runs[i].text.as_str());
        proof {
            let upto = views.take(i + 1);
            assert(upto.drop_last() =~= views.take(i as int));
            assert(upto.last() == runs@[i as int].deep_view());
            assert(out@ =~= start + runs_text(upto));
        }
        i += 1;
    }
    proof {
        assert(views.take(runs.len() as int) =~= views);
    }
}

/// Appends the Markdown of a shape of plain text.
pub fn append_text(out: &mut String, text: &TextElement)
    ensures
        final(out)@ == old(out)@ + text_markdown(text.deep_view()),
{
    let ghost start = out@;
    let ghost views = text.runs.deep_view();
    let mut i: usize = 0;
    proof {
        assert(views.take(0) =~= Seq::<RunView>::empty());
        assert(start + Seq::<char>::empty() =~= start);
    }
    while i < text.runs.len()
        invariant
            i <= text.runs.len(),
            views == text.runs.deep_view(),
            out@ == start + runs_markdown(views.take(i as int)),
        decreases text.runs.len() - i,
    {
        let markdown = text.runs[i].render_as_md();
        out.append(markdown.as_str());
        proof {
            let upto = views.take(i + 1);
            assert(upto.drop_last() =~= views.take(i as int));
            assert(upto.last() == text.runs@[i as int].deep_view());
            assert(out@ =~= start + runs_markdown(upto));
        }
        i += 1;
    }
    out.append("\n");
    proof {
        assert(views.take(text.runs.len() as int) =~= views);
        assert(out@ =~= start + text_markdown(text.deep_view()));
    }
}

/// Appends one line of a table.
pub fn append_row_line(out: &mut String, row: &TableRow)
    ensures
        final(out)@ == old(out)@ + row_line(row.deep_view()),
{
    let ghost start = out@;
    let ghost texts = cell_texts(row.deep_view());
    out.append("| ");
    let mut j: usize = 0;
    proof {
        assert(texts.take(0) =~= Seq::<Seq<char>>::empty());
        assert(out@ =~= start + "| "@ + Seq::<char>::empty());
    }
    while j < row.cells.len()
        invariant
            j <= row.cells.len(),
            texts == cell_texts(row.deep_view()),
            texts.len() == row.cells.len(),
            out@ == start + "| "@ + joined(texts.take(j as int), " | "@),
        decreases row.cells.len() - j,
    {
        let ghost before = out@;
        if j > 0 {
            out.append(" | ");
        }
        append_runs_text(out, &row.cells[j].runs);
        proof {
            let upto = texts.take(j + 1);
            assert(upto.drop_last() =~= texts.take(j as int));
            assert(row.deep_view()[j as int] == row.cells@[j as int].deep_view());
            assert(upto.last() == runs_text(row.cells@[j as int].runs.deep_view()));
            if j == 0 {
                assert(upto[0] == upto.last());
                assert(before =~= start + "| "@);
            }
            assert(out@ =~= start + "| "@ + joined(upto, " | "@));
        }
        j += 1;
    }
    out.append(" |");
    out.append("\n");
    proof {
        assert(texts.take(row.cells.len() as int) =~= texts);
        assert(out@ =~= start + row_line(row.deep_view()));
    }
}

/// Appends the line that parts a table's header from its body.
pub fn append_separator_line(out: &mut String, columns: usize)
    ensures
        final(out)@ == old(out)@ + separator_line(columns as nat),
{
    let ghost start = out@;
    let ghost cells = separator_cells(columns as nat);
    out.append("|");
    let mut j: usize = 0;
    proof {
        assert(cells.take(0) =~= Seq::<Seq<char>>::empty());
        assert(out@ =~= start + "|"@ + Seq::<char>::empty());
    }
    while j < columns
        invariant
            j <= columns,
            cells == separator_cells(columns as nat),
            out@ == start + "|"@ + joined(cells.take(j as int), "|"@),
        decreases columns - j,
    {
        let ghost before = out@;
        if j > 0 {
            out.append("|");
        }
        out.append(" --- ");
        proof {
            let upto = cells.take(j + 1);
            assert(upto.drop_last() =~= cells.take(j as int));
            assert(upto.last() == " --- "@);
            if j == 0 {
                assert(upto[0] == upto.last());
                assert(before =~= start + "|"@);
            }
            assert(out@ =~= start + "|"@ + joined(upto, "|"@));
        }
        j += 1;
    }
    out.append("|");
    out.append("\n");
    proof {
        assert(cells.take(columns as int) =~= cells);
        assert(out@ =~= start + separator_line(columns as nat));
    }
}

/// Appends the Markdown of a table.
pub fn append_table(out: &mut String, table: &TableElement)
    ensures
        final(out)@ == old(out)@ + table_markdown(table.deep_view()),
{
    let ghost start = out@;
    let ghost rows = table.deep_view();
    let mut r: usize = 0;
    proof {
        assert(rows.take(0) =~= Seq::<Seq<Seq<RunView>>>::empty());
        assert(start + Seq::<char>::empty() =~= start);
    }
    while r < table.rows.len()
        invariant
            r <= table.rows.len(),
            rows == table.deep_view(),
            rows.len() == table.rows.len(),
            out@ == start + rows_markdown(rows.take(r as int)),
        decreases table.rows.len() - r,
    {
        let ghost before = out@;
        append_row_line(out, &table.rows[r]);
        if r == 0 {
            append_separator_line(out, table.rows[r].cells.len());
        }
        proof {
            let upto = rows.take(r + 1);
            assert(upto.drop_last() =~= rows.take(r as int));
            assert(upto.last() == table.rows@[r as int].deep_view());
            if r == 0 {
                assert(upto[0] == upto.last());
                assert(before =~= start);
            }
            assert(out@ =~= start + rows_markdown(upto));
        }
        r += 1;
    }
    out.append("\n");
    proof {
        assert(rows.take(table.rows.len() as int) =~= rows);
        assert(out@ =~= start + table_markdown(table.deep_view()));
    }
}

/// The count that `stack` holds for `level`; 0 where it holds none.
spec fn count_at(stack: Seq<(u32, usize)>, level: int) -> nat
    decreases stack.len(),
{
    if stack.len() == 0 {
        0
    } else if stack.last().0 == level {
        stack.last().1 as nat
    } else {
        count_at(stack.drop_last(), level)
    }
}

/// Whether `stack` holds, by rising level, the counters of `state` that are
/// not 0, none of them above `bound`.
spec fn holds_counters(stack: Seq<(u32, usize)>, state: ListCounters, bound: nat) -> bool {
    &&& state.counters.len() <= state.previous_level + 1
    &&& forall|a: int, b: int|
        0 <= a < b < stack.len() ==> (#[trigger] stack[a]).0 < (#[trigger] stack[b]).0
    &&& forall|a: int|
        0 <= a < stack.len() ==> (#[trigger] stack[a]).0 < state.counters.len() && stack[a].1
            <= bound
    &&& forall|k: int|
        0 <= k < state.counters.len() ==> #[trigger] state.counters[k] == count_at(stack, k)
}

proof fn lemma_count_at_absent(stack: Seq<(u32, usize)>, level: int)
    requires
        forall|a: int| 0 <= a < stack.len() ==> (#[trigger] stack[a]).0 != level,
    ensures
        count_at(stack, level) == 0,
    decreases stack.len(),
{
    if stack.len() > 0 {
        let rest = stack.drop_last();
        assert(stack[stack.len() - 1].0 != level);
        assert forall|a: int| 0 <= a < rest.len() implies (#[trigger] rest[a]).0 != level by {
            assert(rest[a] == stack[a]);
        }
        lemma_count_at_absent(rest, level);
    }
}

proof fn lemma_count_at_take(stack: Seq<(u32, usize)>, m: int, level: int)
    requires
        0 <= m <= stack.len(),
        forall|a: int| m <= a < stack.len() ==> (#[trigger] stack[a]).0 != level,
    ensures
        count_at(stack.take(m), level) == count_at(stack, level),
    decreases stack.len() - m,
{
    if m == stack.len() {
        assert(stack.take(m) =~= stack);
    } else {
        let rest = stack.drop_last();
        assert(stack[stack.len() - 1].0 != level);
        assert forall|a: int| m <= a < rest.len() implies (#[trigger] rest[a]).0 != level by {
            assert(rest[a] == stack[a]);
        }
        lemma_count_at_take(rest, m, level);
        assert(rest.take(m) =~= stack.take(m));
    }
}

/// Moves the counters on by an item of the given level, and gives the number
/// that the item shows.
fn advance_counters(
    stack: &mut Vec<(u32, usize)>,
    level: u32,
    Ghost(state): Ghost<ListCounters>,
    Ghost(bound): Ghost<nat>,
) -> (number: usize)
    requires
        holds_counters(old(stack)@, state, bound),
        bound < usize::MAX,
    ensures
        holds_counters(final(stack)@, counters_after(state, level as nat), bound + 1),
        number == counters_after(state, level as nat).counters[level as int],
{
    let ghost before = stack@;
    let ghost after = counters_after(state, level as nat);
    while stack.len() > 0 && stack[stack.len() - 1].0 > level
        invariant
            stack@.len() <= before.len(),
            stack@ == before.take(stack@.len() as int),
            forall|a: int| stack@.len() <= a < before.len() ==> (#[trigger] before[a]).0 > level,
        decreases stack@.len(),
    {
        let ghost shorter = stack@.len() - 1;
        stack.pop();
        proof {
            assert(stack@ =~= before.take(shorter));
        }
    }
    let ghost kept = stack@;
    let m = stack.len();
    proof {
        // everything that stays is of a level up to `level`
        assert forall|a: int| 0 <= a < kept.len() implies (#[trigger] kept[a]).0 <= level by {
            assert(kept[a] == before[a]);
            if a < m - 1 {
                assert(kept[m - 1] == before[m - 1]);
            }
        }
        assert forall|k: int| 0 <= k <= level implies count_at(kept, k) == count_at(before, k) by {
            lemma_count_at_take(before, m as int, k);
        }
    }
    let number: usize;
    if m > 0 && stack[m - 1].0 == level {
        let count = stack[m - 1].1;
        assert(kept[m - 1] == before[m - 1]);
        number = count + 1;
        stack.set(m - 1, (level, number));
        proof {
            let now = stack@;
            assert(now.drop_last() =~= kept.drop_last());
            assert(count_at(kept, level as int) == count);
            assert(state.counters[level as int] == count);
            assert forall|k: int| 0 <= k < after.counters.len() implies #[trigger] after.counters[k]
                == count_at(now, k) by {
                if k != level {
                    assert(count_at(now, k) == count_at(kept, k));
                    assert(after.counters[k] == state.counters[k]);
                }
            }
            assert forall|a: int, b: int| 0 <= a < b < now.len() implies (#[trigger] now[a]).0 < (
            #[trigger] now[b]).0 by {
                assert(kept[a] == before[a]);
                assert(kept[b] == before[b]);
            }
            assert forall|a: int| 0 <= a < now.len() implies (#[trigger] now[a]).0
                < after.counters.len() && now[a].1 <= bound + 1 by {
                assert(kept[a] == before[a]);
            }
        }
    } else {
        number = 1;
        stack.push((level, 1));
        proof {
            let now = stack@;
            assert(now.drop_last() =~= kept);
            assert forall|a: int| 0 <= a < kept.len() implies (#[trigger] kept[a]).0 != level by {
                assert(kept[a] == before[a]);
                if a < m - 1 {
                    assert(kept[m - 1] == before[m - 1]);
                }
            }
            lemma_count_at_absent(kept, level as int);
            if level < state.counters.len() {
                assert(state.counters[level as int] == 0);
            }
            assert forall|k: int| 0 <= k < after.counters.len() implies #[trigger] after.counters[k]
                == count_at(now, k) by {
                if k != level {
                    assert(count_at(now, k) == count_at(kept, k));
                    if k < state.counters.len() {
                        assert(after.counters[k] == state.counters[k]);
                    } else {
                        assert forall|a: int| 0 <= a < before.len() implies (
                        #[trigger] before[a]).0 != k by {}
                        lemma_count_at_absent(before, k);
                    }
                }
            }
            assert forall|a: int, b: int| 0 <= a < b < now.len() implies (#[trigger] now[a]).0 < (
            #[trigger] now[b]).0 by {
                assert(kept[a] == before[a]);
                if b < kept.len() {
                    assert(kept[b] == before[b]);
                }
            }
            assert forall|a: int| 0 <= a < now.len() implies (#[trigger] now[a]).0
                < after.counters.len() && now[a].1 <= bound + 1 by {
                if a < kept.len() {
                    assert(kept[a] == before[a]);
                }
            }
        }
    }
    number
}

/// Appends one tab character per level.
fn append_indent(out: &mut String, level: u32)
    ensures
        final(out)@ == old(out)@ + indent(level as nat),
{
    let ghost start = out@;
    let mut k: u32 = 0;
    proof {
        assert(out@ =~= start + indent(0));
    }
    while k < level
        invariant
            k <= level,
            out@ == start + indent(k as nat),
        decreases level - k,
    {
        out.append("\t");
        proof {
            reveal_strlit("\t");
            assert(out@ =~= start + indent((k + 1) as nat));
        }
        k += 1;
    }
}

/// Appends the Markdown of a list.
pub fn append_list(out: &mut String, list: &ListElement)
    ensures
        final(out)@ == old(out)@ + items_markdown(list.deep_view()),
{
    let ghost start = out@;
    let ghost items = list.deep_view();
    let mut stack: Vec<(u32, usize)> = Vec::new();
    let mut i: usize = 0;
    proof {
        assert(items.take(0) =~= Seq::<ListItemView>::empty());
        assert(start + Seq::<char>::empty() =~= start);
    }
    while i < list.items.len()
        invariant
            i <= list.items.len(),
            items == list.deep_view(),
            items.len() == list.items.len(),
            out@ == start + items_markdown(items.take(i as int)),
            holds_counters(stack@, counters_after_all(items.take(i as int)), i as nat),
        decreases list.items.len() - i,
    {
        let item = &list.items[i];
        let ghost upto = items.take(i + 1);
        proof {
            assert(upto.drop_last() =~= items.take(i as int));
            assert(upto.last() == list.items@[i as int].deep_view());
        }
        let number = advance_counters(
            &mut stack,
            item.level,
            Ghost(counters_after_all(items.take(i as int))),
            Ghost(i as nat),
        );
        append_indent(out, item.level);
        if item.is_ordered {
            let numeral = decimal_string(number as u64);
            out.append(numeral.as_str());
            out.append(". ");
        } else {
            out.append("- ");
        }
        append_runs_text(out, &item.runs);
        out.append("\n");
        proof {
            assert(out@ =~= start + items_markdown(upto));
        }
        i += 1;
    }
    proof {
        assert(items.take(list.items.len() as int) =~= items);
    }
}

/// How often `c` stands in `s`.
pub open spec fn occurrences(s: Seq<char>, c: char) -> nat
    decreases s.len(),
{
    if s.len() == 0 {
        0
    } else {
        occurrences(s.drop_last(), c) + if s.last() == c {
            1nat
        } else {
            0nat
        }
    }
}

/// The lines of a table: one for each row, and the separator line behind
/// the first.
pub open spec fn table_lines(rows: Seq<Seq<Seq<RunView>>>) -> Seq<Seq<char>>
    decreases rows.len(),
{
    if rows.len() == 0 {
        Seq::empty()
    } else if rows.len() == 1 {
        seq![row_line(rows[0]), separator_line(rows[0].len())]
    } else {
        table_lines(rows.drop_last()).push(row_line(rows.last()))
    }
}

/// The lines, one behind the other.
pub open spec fn lines_text(lines: Seq<Seq<char>>) -> Seq<char>
    decreases lines.len(),
{
    if lines.len() == 0 {
        Seq::empty()
    } else {
        lines_text(lines.drop_last()) + lines.last()
    }
}

/// Whether every row has the given number of cells.
pub open spec fn has_columns(rows: Seq<Seq<Seq<RunView>>>, columns: nat) -> bool {
    forall|k: int| 0 <= k < rows.len() ==> (#[trigger] rows[k]).len() == columns
}

/// Whether no cell's text holds `c`.
pub open spec fn cells_without(rows: Seq<Seq<Seq<RunView>>>, c: char) -> bool {
    forall|k: int, j: int|
        0 <= k < rows.len() && 0 <= j < rows[k].len() ==> occurrences(
            runs_text(#[trigger] rows[k][j]),
            c,
        ) == 0
}

proof fn lemma_occurrences_concat(a: Seq<char>, b: Seq<char>, c: char)
    ensures
        occurrences(a + b, c) == occurrences(a, c) + occurrences(b, c),
    decreases b.len(),
{
    if b.len() == 0 {
        assert(a + b =~= a);
    } else {
        lemma_occurrences_concat(a, b.drop_last(), c);
        assert((a + b).drop_last() =~= a + b.drop_last());
    }
}

proof fn lemma_occurrences_joined(parts: Seq<Seq<char>>, separator: Seq<char>, c: char)
    requires
        forall|k: int| 0 <= k < parts.len() ==> occurrences(#[trigger] parts[k], c) == 0,
        occurrences(separator, c) <= 1,
    ensures
        occurrences(joined(parts, separator), c) == if parts.len() > 0 && occurrences(
            separator,
            c,
        ) == 1 {
            (parts.len() - 1) as nat
        } else {
            0nat
        },
    decreases parts.len(),
{
    if parts.len() == 1 {
        assert(occurrences(parts[0], c) == 0);
    } else if parts.len() > 1 {
        let rest = parts.drop_last();
        assert forall|k: int| 0 <= k < rest.len() implies occurrences(#[trigger] rest[k], c)
            == 0 by {
            assert(rest[k] == parts[k]);
        }
        lemma_occurrences_joined(rest, separator, c);
        lemma_occurrences_concat(joined(rest, separator), separator, c);
        lemma_occurrences_concat(joined(rest, separator) + separator, parts.last(), c);
        assert(occurrences(parts[parts.len() - 1], c) == 0);
    }
}

proof fn lemma_marks_of_a_table()
    ensures
        occurrences("| "@, '|') == 1,
        occurrences("| "@, '\n') == 0,
        occurrences(" | "@, '|') == 1,
        occurrences(" | "@, '\n') == 0,
        occurrences(" |"@, '|') == 1,
        occurrences(" |"@, '\n') == 0,
        occurrences("|"@, '|') == 1,
        occurrences("|"@, '\n') == 0,
        occurrences(" --- "@, '|') == 0,
        occurrences(" --- "@, '\n') == 0,
        occurrences("\n"@, '|') == 0,
        occurrences("\n"@, '\n') == 1,
        "\n"@.len() == 1,
        "\n"@.last() == '\n',
{
    reveal_strlit("| ");
    reveal_strlit(" | ");
    reveal_strlit(" |");
    reveal_strlit("|");
    reveal_strlit(" --- ");
    reveal_strlit("\n");
    reveal_with_fuel(occurrences, 6);
}

proof fn lemma_row_line_shape(cells: Seq<Seq<RunView>>)
    requires
        cells.len() >= 1,
        forall|j: int| 0 <= j < cells.len() ==> occurrences(runs_text(#[trigger] cells[j]), '|') == 0,
        forall|j: int|
            0 <= j < cells.len() ==> occurrences(runs_text(#[trigger] cells[j]), '\n') == 0,
    ensures
        row_line(cells).len() > 0,
        row_line(cells).last() == '\n',
        occurrences(row_line(cells), '\n') == 1,
        occurrences(row_line(cells), '|') == cells.len() + 1,
{
    lemma_marks_of_a_table();
    let texts = cell_texts(cells);
    assert forall|j: int| 0 <= j < texts.len() implies occurrences(#[trigger] texts[j], '|')
        == 0 by {
        assert(texts[j] == runs_text(cells[j]));
    }
    assert forall|j: int| 0 <= j < texts.len() implies occurrences(#[trigger] texts[j], '\n')
        == 0 by {
        assert(texts[j] == runs_text(cells[j]));
    }
    lemma_occurrences_joined(texts, " | "@, '|');
    lemma_occurrences_joined(texts, " | "@, '\n');
    let middle = joined(texts, " | "@);
    lemma_occurrences_concat("| "@, middle, '|');
    lemma_occurrences_concat("| "@ + middle, " |"@, '|');
    lemma_occurrences_concat("| "@ + middle + " |"@, "\n"@, '|');
    lemma_occurrences_concat("| "@, middle, '\n');
    lemma_occurrences_concat("| "@ + middle, " |"@, '\n');
    lemma_occurrences_concat("| "@ + middle + " |"@, "\n"@, '\n');
}

proof fn lemma_separator_line_shape(columns: nat)
    requires
        columns >= 1,
    ensures
        separator_line(columns).len() > 0,
        separator_line(columns).last() == '\n',
        occurrences(separator_line(columns), '\n') == 1,
        occurrences(separator_line(columns), '|') == columns + 1,
{
    lemma_marks_of_a_table();
    let cells = separator_cells(columns);
    lemma_occurrences_joined(cells, "|"@, '|');
    lemma_occurrences_joined(cells, "|"@, '\n');
    let middle = joined(cells, "|"@);
    lemma_occurrences_concat("|"@, middle, '|');
    lemma_occurrences_concat("|"@ + middle, "|"@, '|');
    lemma_occurrences_concat("|"@ + middle + "|"@, "\n"@, '|');
    lemma_occurrences_concat("|"@, middle, '\n');
    lemma_occurrences_concat("|"@ + middle, "|"@, '\n');
    lemma_occurrences_concat("|"@ + middle + "|"@, "\n"@, '\n');
}

/// A table keeps its shape. For a table of at least one row, with the same
/// number of cells, at least one, in each row, and with no bar and no line
/// break in any cell's text: its Markdown is one line for each row and one
/// more, the separator line behind the first; each of these lines ends with
/// its only line break, and holds one bar more than there are columns, so
/// that the bars part as many cell values as there are columns.
pub proof fn lemma_table_keeps_shape(rows: Seq<Seq<Seq<RunView>>>, columns: nat)
    requires
        rows.len() >= 1,
        columns >= 1,
        has_columns(rows, columns),
        cells_without(rows, '|'),
        cells_without(rows, '\n'),
    ensures
        table_lines(rows).len() == rows.len() + 1,
        rows_markdown(rows) == lines_text(table_lines(rows)),
        occurrences(rows_markdown(rows), '\n') == rows.len() + 1,
        forall|k: int|
            0 <= k < table_lines(rows).len() ==> {
                let line = #[trigger] table_lines(rows)[k];
                &&& line.len() > 0
                &&& line.last() == '\n'
                &&& occurrences(line, '\n') == 1
                &&& occurrences(line, '|') == columns + 1
            },
    decreases rows.len(),
{
    let last = rows.last();
    assert(last == rows[rows.len() - 1]);
    assert(last.len() == columns);
    assert forall|j: int| 0 <= j < last.len() implies occurrences(
        runs_text(#[trigger] last[j]),
        '|',
    ) == 0 by {
        assert(last[j] == rows[rows.len() - 1][j]);
    }
    assert forall|j: int| 0 <= j < last.len() implies occurrences(
        runs_text(#[trigger] last[j]),
        '\n',
    ) == 0 by {
        assert(last[j] == rows[rows.len() - 1][j]);
    }
    lemma_row_line_shape(last);
    if rows.len() == 1 {
        lemma_separator_line_shape(columns);
        let lines = table_lines(rows);
        let first = lines.drop_last();
        assert(first =~= seq![row_line(rows[0])]);
        assert(first.last() == row_line(rows[0]));
        assert(first.drop_last() =~= Seq::<Seq<char>>::empty());
        assert(lines_text(first.drop_last()) =~= Seq::<char>::empty());
        assert(lines_text(first) =~= row_line(rows[0]));
        assert(lines_text(lines) =~= rows_markdown(rows));
        lemma_occurrences_concat(row_line(rows[0]), separator_line(columns), '\n');
    } else {
        let rest = rows.drop_last();
        assert forall|k: int| 0 <= k < rest.len() implies (#[trigger] rest[k]).len()
            == columns by {
            assert(rest[k] == rows[k]);
        }
        assert forall|k: int, j: int| 0 <= k < rest.len() && 0 <= j < rest[k].len() implies occurrences(
            runs_text(#[trigger] rest[k][j]),
            '|',
        ) == 0 by {
            assert(rest[k] == rows[k]);
            assert(rest[k][j] == rows[k][j]);
        }
        assert forall|k: int, j: int| 0 <= k < rest.len() && 0 <= j < rest[k].len() implies occurrences(
            runs_text(#[trigger] rest[k][j]),
            '\n',
        ) == 0 by {
            assert(rest[k] == rows[k]);
            assert(rest[k][j] == rows[k][j]);
        }
        lemma_table_keeps_shape(rest, columns);
        let lines = table_lines(rows);
        assert(lines.drop_last() =~= table_lines(rest));
        lemma_occurrences_concat(rows_markdown(rest), row_line(last), '\n');
        assert forall|k: int| 0 <= k < lines.len() implies {
            let line = #[trigger] lines[k];
            &&& line.len() > 0
            &&& line.last() == '\n'
            &&& occurrences(line, '\n') == 1
            &&& occurrences(line, '|') == columns + 1
        } by {
            if k < lines.len() - 1 {
                assert(lines[k] == table_lines(rest)[k]);
            }
        }
    }
}

/// The number that counts the item at place `i` of a list; an ordered item
/// shows it.
pub open spec fn item_number(items: Seq<ListItemView>, i: int) -> nat {
    counters_after_all(items.take(i + 1)).counters[items[i].level as int]
}

/// The lines of a list are those of its items, each with the number that
/// counts it.
pub proof fn lemma_items_markdown_by_number(items: Seq<ListItemView>)
    requires
        items.len() > 0,
    ensures
        items_markdown(items) == items_markdown(items.drop_last()) + item_marker(
            items.last().level as nat,
            items.last().is_ordered,
            item_number(items, items.len() - 1),
        ) + runs_text(items.last().runs) + "\n"@,
{
    assert(items.take(items.len() as int) =~= items);
}

proof fn lemma_counters_have_the_level(items: Seq<ListItemView>)
    requires
        items.len() > 0,
    ensures
        counters_after_all(items).counters.len() > items.last().level,
        counters_after_all(items).previous_level == items.last().level,
{
}

proof fn lemma_counter_stays_below_deeper_items(items: Seq<ListItemView>, j: int, k: int)
    requires
        0 <= j <= k < items.len(),
        forall|m: int| j < m <= k ==> (#[trigger] items[m]).level > items[j].level,
    ensures
        counters_after_all(items.take(k + 1)).counters.len() > items[j].level,
        counters_after_all(items.take(k + 1)).counters[items[j].level as int] == item_number(
            items,
            j,
        ),
    decreases k - j,
{
    let upto = items.take(k + 1);
    lemma_counters_have_the_level(upto);
    if j < k {
        assert(upto.drop_last() =~= items.take(k));
        assert(upto.last() == items[k]);
        lemma_counter_stays_below_deeper_items(items, j, k - 1);
        lemma_counters_have_the_level(items.take(k));
    }
}

/// The numbers of a list go on at a level after deeper items: an item shows
/// one more than the last item of its level before it, where every item
/// between the two lies deeper.
pub proof fn lemma_list_numbers_go_on(items: Seq<ListItemView>, j: int, i: int)
    requires
        0 <= j < i < items.len(),
        items[j].level == items[i].level,
        forall|m: int| j < m < i ==> (#[trigger] items[m]).level > items[i].level,
    ensures
        item_number(items, i) == item_number(items, j) + 1,
{
    let upto = items.take(i + 1);
    assert(upto.drop_last() =~= items.take(i));
    assert(upto.last() == items[i]);
    lemma_counter_stays_below_deeper_items(items, j, i - 1);
    lemma_counters_have_the_level(items.take(i));
    assert(items.take(i).last() == items[i - 1]);
}

/// The numbers of a list start again below: the first item, and an item that
/// lies deeper than the item before it, show 1.
pub proof fn lemma_list_numbers_start_again(items: Seq<ListItemView>, i: int)
    requires
        0 <= i < items.len(),
        i > 0 ==> items[i - 1].level < items[i].level,
    ensures
        item_number(items, i) == 1,
{
    let upto = items.take(i + 1);
    assert(upto.drop_last() =~= items.take(i));
    assert(upto.last() == items[i]);
    let before = counters_after_all(items.take(i));
    let level = items[i].level as nat;
    assert(counters_after_all(upto) == counters_after(before, level));
    let grown = if level >= before.counters.len() {
        before.counters + Seq::new((level + 1 - before.counters.len()) as nat, |k: int| 0nat)
    } else {
        before.counters
    };
    assert(grown.len() > level);
    if i > 0 {
        lemma_counters_have_the_level(items.take(i));
        assert(items.take(i).last() == items[i - 1]);
        assert(level > before.previous_level);
    } else {
        assert(items.take(0).len() == 0);
        assert(before == counters_at_start());
        if level == 0 {
            assert(grown[0] == 0);
        }
    }
}

} // verus!
