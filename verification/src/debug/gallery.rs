//! The gallery: which pictures there are, and the page that shows them.

use crate::text::{
    decimal, decimal_of, is_number, is_word, joined, law_decimal_is_number, law_words_round_trip,
    lemma_decimal_digits, number_digits, padded, padded_of, parse_number, split_words, texts_view,
    value_of, words_of,
};
use vstd::prelude::*;
use vstd::string::*;

verus! {

/// Where a picture stands, and whether it shows the end of an execution.
#[derive(Clone, Copy, Debug, PartialEq, Eq, Structural)]
pub struct Slot {
    pub row: usize,
    pub col: usize,
    pub complete: bool,
}

/// A list of entries, by ascending key, with `key` bound to `value`.
pub open spec fn put_in<V>(list: Seq<(usize, V)>, key: usize, value: V) -> Seq<(usize, V)>
    decreases list.len(),
{
    if list.len() == 0 {
        seq![(key, value)]
    } else if list.last().0 == key {
        list.update(list.len() - 1, (key, value))
    } else if list.last().0 < key {
        list.push((key, value))
    } else {
        put_in(list.drop_last(), key, value).push(list.last())
    }
}

/// What `key` is bound to in a list of entries.
pub open spec fn found_in<V>(list: Seq<(usize, V)>, key: usize) -> Option<V>
    decreases list.len(),
{
    if list.len() == 0 {
        None
    } else if list.last().0 == key {
        Some(list.last().1)
    } else {
        found_in(list.drop_last(), key)
    }
}

/// Whether the keys of a list ascend strictly.
pub open spec fn keys_sorted<V>(list: Seq<(usize, V)>) -> bool {
    forall|i: int, j: int| 0 <= i < j < list.len() ==> (#[trigger] list[i]).0 < (
    #[trigger] list[j]).0
}

/// Binding a key keeps the list sorted, and the other bindings.
pub proof fn lemma_put_in<V>(list: Seq<(usize, V)>, key: usize, value: V)
    requires
        keys_sorted(list),
    ensures
        keys_sorted(put_in(list, key, value)),
        put_in(list, key, value).len() <= list.len() + 1,
        forall|i: int|
            0 <= i < put_in(list, key, value).len() ==> (#[trigger] put_in(list, key, value)[i])
                == (key, value) || list.contains(put_in(list, key, value)[i]),
        forall|k: usize| #[trigger]
            found_in(put_in(list, key, value), k) == if k == key {
                Some(value)
            } else {
                found_in(list, k)
            },
    decreases list.len(),
{
    let after = put_in(list, key, value);
    if list.len() == 0 {
        assert(after.drop_last() =~= list);
    } else if list.last().0 == key {
        assert(after.drop_last() =~= list.drop_last());
        assert forall|i: int| 0 <= i < after.len() implies (#[trigger] after[i]) == (key, value)
            || list.contains(after[i]) by {
            if i < list.len() - 1 {
                assert(after[i] == list[i]);
            }
        }
        assert forall|i: int, j: int| 0 <= i < j < after.len() implies (#[trigger] after[i]).0 < (
        #[trigger] after[j]).0 by {
            assert(list[i].0 < list[j].0);
        }
    } else if list.last().0 < key {
        assert(after.drop_last() =~= list);
        assert forall|i: int, j: int| 0 <= i < j < after.len() implies (#[trigger] after[i]).0 < (
        #[trigger] after[j]).0 by {
            if j == list.len() && i < list.len() - 1 {
                assert(list[i].0 < list[list.len() - 1].0);
            }
        }
    } else {
        let shorter = list.drop_last();
        let inner = put_in(shorter, key, value);
        lemma_put_in(shorter, key, value);
        assert(after.drop_last() =~= inner);
        assert forall|i: int, j: int| 0 <= i < j < after.len() implies (#[trigger] after[i]).0 < (
        #[trigger] after[j]).0 by {
            if j == inner.len() {
                assert(after[i] == inner[i]);
                if inner[i] != (key, value) {
                    assert(shorter.contains(inner[i]));
                    let m = choose|m: int| 0 <= m < shorter.len() && shorter[m] == inner[i];
                    assert(list[m].0 < list[list.len() - 1].0);
                }
            } else {
                assert(after[i] == inner[i] && after[j] == inner[j]);
            }
        }
        assert forall|i: int| 0 <= i < after.len() implies (#[trigger] after[i]) == (key, value)
            || list.contains(after[i]) by {
            if i < inner.len() {
                assert(after[i] == inner[i]);
                if inner[i] != (key, value) {
                    assert(shorter.contains(inner[i]));
                    let m = choose|m: int| 0 <= m < shorter.len() && shorter[m] == inner[i];
                    assert(list[m] == inner[i]);
                }
            } else {
                assert(after[i] == list[list.len() - 1]);
            }
        }
        assert forall|k: usize| #[trigger] found_in(after, k) == if k == key {
            Some(value)
        } else {
            found_in(list, k)
        } by {
            if k == list.last().0 {
            } else {
                assert(found_in(after, k) == found_in(inner, k));
            }
        }
    }
}

fn put<V>(list: &mut Vec<(usize, V)>, key: usize, value: V)
    ensures
        final(list)@ == put_in(old(list)@, key, value),
    decreases old(list)@.len(),
{
    let ghost before = list@;
    let n = list.len();
    if n == 0 {
        list.push((key, value));
        assert(list@ =~= seq![(key, value)]);
    } else if list[n - 1].0 == key {
        list.set(n - 1, (key, value));
    } else if list[n - 1].0 < key {
        list.push((key, value));
    } else {
        let last = list.pop();
        assert(list@ =~= before.drop_last());
        put(list, key, value);
        if let Some(l) = last {
            list.push(l);
        }
    }
}

fn find<V: Copy>(list: &Vec<(usize, V)>, key: usize) -> (r: Option<V>)
    ensures
        r == found_in(list@, key),
{
    let mut n: usize = list.len();
    assert(list@.take(n as int) =~= list@);
    while n > 0
        invariant
            n <= list.len(),
            found_in(list@.take(n as int), key) == found_in(list@, key),
        decreases n,
    {
        assert(list@.take(n as int).drop_last() =~= list@.take(n - 1));
        if list[n - 1].0 == key {
            return Some(list[n - 1].1);
        }
        n -= 1;
    }
    None
}

/// Which pictures there are, and where the rows start.
pub struct Manifest {
    pub graphs: Vec<(usize, Slot)>,
    pub row_starts: Vec<(usize, usize)>,
}

/// A manifest as the contracts see it.
#[verifier::ext_equal]
pub struct ManifestView {
    pub graphs: Seq<(usize, Slot)>,
    pub row_starts: Seq<(usize, usize)>,
}

impl View for Manifest {
    type V = ManifestView;

    open spec fn view(&self) -> ManifestView {
        ManifestView { graphs: self.graphs@, row_starts: self.row_starts@ }
    }
}

/// The manifest without pictures.
pub open spec fn empty_manifest() -> ManifestView {
    ManifestView { graphs: Seq::empty(), row_starts: Seq::empty() }
}

/// The invariant of manifests.
pub open spec fn manifest_ok(m: ManifestView) -> bool {
    keys_sorted(m.graphs) && keys_sorted(m.row_starts)
}

/// The number that the next picture gets.
pub open spec fn next_index(m: ManifestView) -> nat {
    if m.graphs.len() == 0 {
        0
    } else {
        m.graphs.last().0 as nat + 1
    }
}

/// The manifest with one more picture. A row starts where its first picture says.
pub open spec fn with_picture(m: ManifestView, idx: usize, slot: Slot, start: usize) -> ManifestView {
    ManifestView {
        graphs: put_in(m.graphs, idx, slot),
        row_starts: if found_in(m.row_starts, slot.row) is Some {
            m.row_starts
        } else {
            put_in(m.row_starts, slot.row, start)
        },
    }
}

/// The largest number of a word.
pub open spec fn largest() -> nat {
    usize::MAX as nat
}

/// The number that a word is.
pub open spec fn number_of(word: Seq<char>) -> usize {
    value_of(number_digits(word)) as usize
}

/// Whether a word is a number.
pub open spec fn is_count(word: Seq<char>) -> bool {
    is_number(word, largest())
}

/// The manifest after one more line of its file was read.
pub open spec fn with_line(m: ManifestView, line: Seq<char>) -> ManifestView {
    let w = words_of(line);
    if w.len() == 5 && w[0] == "G"@ {
        if is_count(w[1]) && is_count(w[2]) && is_count(w[3]) && is_number(w[4], 255) {
            let slot = Slot {
                row: number_of(w[2]),
                col: number_of(w[3]),
                complete: value_of(number_digits(w[4])) != 0,
            };
            ManifestView { graphs: put_in(m.graphs, number_of(w[1]), slot), ..m }
        } else {
            m
        }
    } else if w.len() == 4 && w[0] == "G"@ {
        if is_count(w[1]) && is_count(w[2]) && is_count(w[3]) {
            let slot = Slot { row: number_of(w[2]), col: number_of(w[3]), complete: false };
            ManifestView { graphs: put_in(m.graphs, number_of(w[1]), slot), ..m }
        } else {
            m
        }
    } else if w.len() == 3 && w[0] == "R"@ {
        if is_count(w[1]) && is_count(w[2]) {
            ManifestView {
                row_starts: put_in(m.row_starts, number_of(w[1]), number_of(w[2])),
                ..m
            }
        } else {
            m
        }
    } else if w.len() == 3 {
        if is_count(w[0]) && is_count(w[1]) && is_count(w[2]) {
            let slot = Slot { row: number_of(w[1]), col: number_of(w[2]), complete: false };
            ManifestView { graphs: put_in(m.graphs, number_of(w[0]), slot), ..m }
        } else {
            m
        }
    } else if w.len() == 2 {
        if is_count(w[0]) && is_count(w[1]) {
            let slot = Slot { row: number_of(w[1]), col: number_of(w[0]), complete: false };
            ManifestView { graphs: put_in(m.graphs, number_of(w[0]), slot), ..m }
        } else {
            m
        }
    } else {
        m
    }
}

/// The manifest after the first `n` lines of its file were read.
pub open spec fn manifest_of(lines: Seq<Seq<char>>, n: nat) -> ManifestView
    decreases n,
{
    if n == 0 {
        empty_manifest()
    } else {
        with_line(manifest_of(lines, (n - 1) as nat), lines[n - 1])
    }
}

/// The line of the file for where a row starts.
pub open spec fn row_line(entry: (usize, usize)) -> Seq<char> {
    "R "@ + decimal_of(entry.0 as nat) + " "@ + decimal_of(entry.1 as nat)
}

/// The line of the file for a picture.
pub open spec fn graph_line(entry: (usize, Slot)) -> Seq<char> {
    "G "@ + decimal_of(entry.0 as nat) + " "@ + decimal_of(entry.1.row as nat) + " "@ + decimal_of(
        entry.1.col as nat,
    ) + (if entry.1.complete {
        " 1"@
    } else {
        " 0"@
    })
}

/// The lines of the file of a manifest: where rows start, then the pictures.
pub open spec fn lines_of(m: ManifestView) -> Seq<Seq<char>> {
    Seq::new(m.row_starts.len(), |i: int| row_line(m.row_starts[i])) + Seq::new(
        m.graphs.len(),
        |i: int| graph_line(m.graphs[i]),
    )
}

impl Manifest {
    pub fn new() -> (m: Self)
        ensures
            m@ == empty_manifest(),
    {
        let m = Manifest { graphs: Vec::new(), row_starts: Vec::new() };
        assert(m@ =~= empty_manifest());
        m
    }

    /// The number that the next picture gets.
    pub fn next_graph_index(&self) -> (n: usize)
        requires
            next_index(self@) <= usize::MAX,
        ensures
            n == next_index(self@),
    {
        let n = self.graphs.len();
        if n == 0 {
            0
        } else {
            self.graphs[n - 1].0 + 1
        }
    }

    /// Adds a picture; returns its number.
    pub fn add_graph(&mut self, row: usize, col: usize, row_start: usize, complete: bool) -> (idx:
        usize)
        requires
            next_index(old(self)@) <= usize::MAX,
        ensures
            idx == next_index(old(self)@),
            final(self)@ == with_picture(old(self)@, idx, Slot { row, col, complete }, row_start),
    {
        let ghost before = self@;
        let idx = self.next_graph_index();
        put(&mut self.graphs, idx, Slot { row, col, complete });
        if find(&self.row_starts, row).is_none() {
            put(&mut self.row_starts, row, row_start);
        }
        assert(self@ =~= with_picture(before, idx, Slot { row, col, complete }, row_start));
        idx
    }

    /// Reads one more line of the file. Lines of other forms are passed over.
    pub fn read_line(&mut self, line: &str)
        ensures
            final(self)@ == with_line(old(self)@, line@),
    {
        let ghost before = self@;
        let words = split_words(line);
        let ghost w = texts_view(words@);
        assert(w == words_of(line@));
        let n = words.len();
        let max: u64 = usize::MAX as u64;
        let is_graph = n > 0 && words[0] == String::from_str("G");
        let is_row = n > 0 && words[0] == String::from_str("R");
        assert(n > 0 ==> w[0] == words@[0]@);
        if n == 5 && is_graph {
            assert(w[1] == words@[1]@ && w[2] == words@[2]@ && w[3] == words@[3]@ && w[4]
                == words@[4]@);
            if let (Some(i), Some(r), Some(c), Some(f)) = (
                parse_number(words[1].as_str(), max),
                parse_number(words[2].as_str(), max),
                parse_number(words[3].as_str(), max),
                parse_number(words[4].as_str(), 255),
            ) {
                let slot = Slot { row: r as usize, col: c as usize, complete: f != 0 };
                put(&mut self.graphs, i as usize, slot);
            }
        } else if n == 4 && is_graph {
            assert(w[1] == words@[1]@ && w[2] == words@[2]@ && w[3] == words@[3]@);
            if let (Some(i), Some(r), Some(c)) = (
                parse_number(words[1].as_str(), max),
                parse_number(words[2].as_str(), max),
                parse_number(words[3].as_str(), max),
            ) {
                let slot = Slot { row: r as usize, col: c as usize, complete: false };
                put(&mut self.graphs, i as usize, slot);
            }
        } else if n == 3 && is_row {
            assert(w[1] == words@[1]@ && w[2] == words@[2]@);
            if let (Some(r), Some(s)) = (
                parse_number(words[1].as_str(), max),
                parse_number(words[2].as_str(), max),
            ) {
                put(&mut self.row_starts, r as usize, s as usize);
            }
        } else if n == 3 {
            assert(w[1] == words@[1]@ && w[2] == words@[2]@);
            if let (Some(i), Some(r), Some(c)) = (
                parse_number(words[0].as_str(), max),
                parse_number(words[1].as_str(), max),
                parse_number(words[2].as_str(), max),
            ) {
                let slot = Slot { row: r as usize, col: c as usize, complete: false };
                put(&mut self.graphs, i as usize, slot);
            }
        } else if n == 2 {
            assert(w[1] == words@[1]@);
            if let (Some(i), Some(r)) = (
                parse_number(words[0].as_str(), max),
                parse_number(words[1].as_str(), max),
            ) {
                let slot = Slot { row: r as usize, col: i as usize, complete: false };
                put(&mut self.graphs, i as usize, slot);
            }
        }
        assert(self@ =~= with_line(before, line@));
    }

    /// The manifest that the lines of a file say.
    pub fn load_manifest(lines: &Vec<String>) -> (m: Manifest)
        ensures
            m@ == manifest_of(texts_view(lines@), lines@.len()),
    {
        let mut m = Manifest::new();
        let ghost texts = texts_view(lines@);
        let mut i: usize = 0;
        while i < lines.len()
            invariant
                i <= lines.len(),
                texts == texts_view(lines@),
                m@ == manifest_of(texts, i as nat),
            decreases lines.len() - i,
        {
            assert(texts[i as int] == lines@[i as int]@);
            m.read_line(lines[i].as_str());
            i += 1;
        }
        m
    }

    /// The lines of the file of the manifest.
    pub fn save_manifest(&self) -> (lines: Vec<String>)
        ensures
            texts_view(lines@) == lines_of(self@),
    {
        let mut lines: Vec<String> = Vec::new();
        let mut i: usize = 0;
        while i < self.row_starts.len()
            invariant
                i <= self.row_starts.len(),
                lines@.len() == i,
                forall|k: int|
                    0 <= k < i ==> (#[trigger] lines@[k])@ == row_line(self.row_starts@[k]),
            decreases self.row_starts.len() - i,
        {
            let mut s = String::from_str("R ");
            s.append(decimal(self.row_starts[i].0 as u128).as_str());
            s.append(" ");
            s.append(decimal(self.row_starts[i].1 as u128).as_str());
            lines.push(s);
            i += 1;
        }
        let ghost rows = self.row_starts@.len();
        let mut j: usize = 0;
        while j < self.graphs.len()
            invariant
                j <= self.graphs.len(),
                rows == self.row_starts@.len(),
                lines@.len() == rows + j,
                forall|k: int|
                    0 <= k < rows ==> (#[trigger] lines@[k])@ == row_line(self.row_starts@[k]),
                forall|k: int|
                    rows <= k < rows + j ==> (#[trigger] lines@[k])@ == graph_line(
                        self.graphs@[k - rows],
                    ),
            decreases self.graphs.len() - j,
        {
            let mut s = String::from_str("G ");
            s.append(decimal(self.graphs[j].0 as u128).as_str());
            s.append(" ");
            s.append(decimal(self.graphs[j].1.row as u128).as_str());
            s.append(" ");
            s.append(decimal(self.graphs[j].1.col as u128).as_str());
            s.append(if self.graphs[j].1.complete {
                " 1"
            } else {
                " 0"
            });
            lines.push(s);
            j += 1;
        }
        assert(texts_view(lines@) =~= lines_of(self@));
        lines
    }
}


/// A picture in its row: the column where it stands, and its number.
#[derive(Clone, Copy, Debug, PartialEq, Eq, Structural)]
pub struct Cell {
    pub col: u128,
    pub idx: usize,
    pub complete: bool,
}

/// A row, by ascending column, with one more cell. Cells of one column stay in the
/// order in which they came.
pub open spec fn with_cell(cells: Seq<Cell>, c: Cell) -> Seq<Cell>
    decreases cells.len(),
{
    if cells.len() == 0 {
        seq![c]
    } else if cells.last().col <= c.col {
        cells.push(c)
    } else {
        with_cell(cells.drop_last(), c).push(cells.last())
    }
}

/// The column where a row starts.
pub open spec fn start_of(m: ManifestView, row: usize) -> nat {
    match found_in(m.row_starts, row) {
        Some(start) => start as nat,
        None => 0,
    }
}

/// The cells of a row, among the first `n` pictures.
pub open spec fn cells_upto(m: ManifestView, row: usize, n: nat) -> Seq<Cell>
    decreases n,
{
    if n == 0 {
        Seq::empty()
    } else {
        let before = cells_upto(m, row, (n - 1) as nat);
        let (idx, slot) = m.graphs[n - 1];
        if slot.row == row {
            with_cell(
                before,
                Cell {
                    col: (start_of(m, row) + slot.col) as u128,
                    idx,
                    complete: slot.complete,
                },
            )
        } else {
            before
        }
    }
}

/// The rows of the first `n` pictures, ascending.
pub open spec fn rows_upto(m: ManifestView, n: nat) -> Seq<(usize, ())>
    decreases n,
{
    if n == 0 {
        Seq::empty()
    } else {
        put_in(rows_upto(m, (n - 1) as nat), m.graphs[n - 1].1.row, ())
    }
}

/// `n` empty cells.
pub open spec fn blanks(n: nat) -> Seq<char>
    decreases n,
{
    if n == 0 {
        Seq::empty()
    } else {
        blanks((n - 1) as nat) + "<td></td>"@
    }
}

/// The file name of the image of a picture.
pub open spec fn image_text(stem: Seq<char>, idx: usize) -> Seq<char> {
    "graphs/"@ + stem + "_g"@ + padded_of(idx as nat, 4) + ".png"@
}

/// A cell of the page.
pub open spec fn cell_html(stem: Seq<char>, c: Cell) -> Seq<char> {
    "\n          <td class=\""@ + (if c.complete {
        "border border-danger border-2 border-dashed"@
    } else {
        ""@
    }) + "\">\n            <img src=\""@ + image_text(stem, c.idx) + "\" alt=\"Graph "@
        + decimal_of(c.idx as nat) + "\">\n          </td>"@
}

/// The text of the first `n` cells of a row, and the column after them. Columns
/// without a picture get empty cells.
pub open spec fn row_upto(cells: Seq<Cell>, stem: Seq<char>, n: nat) -> (Seq<char>, nat)
    decreases n,
{
    if n == 0 {
        (Seq::empty(), 0)
    } else {
        let (text, col) = row_upto(cells, stem, (n - 1) as nat);
        let c = cells[n - 1];
        if col < c.col {
            (
                text + blanks((c.col - col) as nat) + cell_html(stem, c),
                c.col as nat + 1,
            )
        } else {
            (text + blanks(0) + cell_html(stem, c), col + 1)
        }
    }
}

/// A row of the page.
pub open spec fn row_html(cells: Seq<Cell>, stem: Seq<char>) -> Seq<char> {
    "<tr>"@ + row_upto(cells, stem, cells.len()).0 + "</tr>"@
}

/// The first `n` rows of the page.
pub open spec fn rows_html(m: ManifestView, stem: Seq<char>, n: nat) -> Seq<char>
    decreases n,
{
    if n == 0 {
        Seq::empty()
    } else {
        let rows = rows_upto(m, m.graphs.len());
        rows_html(m, stem, (n - 1) as nat) + row_html(
            cells_upto(m, rows[n - 1].0, m.graphs.len()),
            stem,
        )
    }
}

/// The page that shows all pictures.
pub open spec fn gallery_of(m: ManifestView, stem: Seq<char>) -> Seq<char> {
    page_header() + rows_html(m, stem, rows_upto(m, m.graphs.len()).len()) + page_footer()
}

/// The start of the page.
pub open spec fn page_header() -> Seq<char> {
    "<!doctype html>\n<html lang=\"en\">\n<head>\n  <meta charset=\"utf-8\">\n  <meta name=\"viewport\" content=\"width=device-width, initial-scale=1\">\n  <link href=\"https://cdn.jsdelivr.net/npm/bootstrap@5.3.3/dist/css/bootstrap.min.css\" rel=\"stylesheet\">\n  <style>\n    table.graph-table { width: max-content; border-collapse: separate; border-spacing: 8px; }\n    table.graph-table td { padding: 8px; border: 1px solid #dee2e6; background: #ffffff; vertical-align: top; }\n    table.graph-table img { display: block; width: 100%; height: auto; }\n  </style>\n  <title>TraceForge Graphs</title>\n</head>\n<body>\n  <div class=\"container-fluid py-3\">\n    <div class=\"mb-3 d-flex align-items-center gap-3\">\n      <label for=\"scaleRange\" class=\"form-label mb-0\">Scale</label>\n      <input type=\"range\" class=\"form-range w-auto\" id=\"scaleRange\" min=\"10\" max=\"150\" value=\"100\" step=\"10\" style=\"max-width: 240px;\">\n      <span id=\"scaleValue\" class=\"small text-muted\">100%</span>\n    </div>\n    <h1 class=\"h4 mb-3\">Execution Graphs</h1>\n    <div class=\"table-responsive\">\n      <table class=\"graph-table\">\n        <tbody>"@
}

/// The end of the page.
pub open spec fn page_footer() -> Seq<char> {
    "\n        </tbody>\n      </table>\n    </div>\n    <script>\n      (function() {\n        const range = document.getElementById('scaleRange');\n        const value = document.getElementById('scaleValue');\n        const imgs = Array.from(document.querySelectorAll('table.graph-table img'));\n        // Capture base widths once images have loaded\n        imgs.forEach(img => {\n          const setBase = () => {\n            const base = img.naturalWidth || img.clientWidth || 240;\n            img.dataset.baseWidth = base.toString();\n            img.dataset.baseHeight = (img.naturalHeight || img.clientHeight || 180).toString();\n          };\n          if (img.complete) {\n            setBase();\n          } else {\n            img.addEventListener('load', setBase, { once: true });\n          }\n        });\n        function apply() {\n          const scale = parseInt(range.value, 10) / 100;\n          value.textContent = `${scale * 100}%`;\n          imgs.forEach(img => {\n            const baseW = parseFloat(img.dataset.baseWidth || '240');\n            const baseH = parseFloat(img.dataset.baseHeight || '180');\n            const w = baseW * scale;\n            const h = baseH * scale;\n            img.style.width = `${w}px`;\n            img.style.height = `${h}px`;\n            const td = img.closest('td');\n            if (td) {\n              td.style.width = `${w + 16}px`; // include padding/border slack\n            }\n          });\n        }\n        range.addEventListener('input', apply);\n        apply();\n      })();\n    </script>\n  </div>\n</body>\n</html>\n"@
}

/// Every cell of a row is followed by the next column, so a row needs no empty cells
/// at its end.
pub proof fn law_rows_end_at_their_last_cell(cells: Seq<Cell>, stem: Seq<char>, n: nat, k: int)
    requires
        0 <= k < n <= cells.len(),
    ensures
        row_upto(cells, stem, n).1 > cells[k].col,
    decreases n,
{
    if k < n - 1 {
        law_rows_end_at_their_last_cell(cells, stem, (n - 1) as nat, k);
    }
}

fn insert_cell(cells: &mut Vec<Cell>, c: Cell)
    ensures
        final(cells)@ == with_cell(old(cells)@, c),
    decreases old(cells)@.len(),
{
    let ghost before = cells@;
    let n = cells.len();
    if n == 0 {
        cells.push(c);
        assert(cells@ =~= seq![c]);
    } else if cells[n - 1].col <= c.col {
        cells.push(c);
    } else {
        let last = cells.pop();
        assert(cells@ =~= before.drop_last());
        insert_cell(cells, c);
        if let Some(l) = last {
            cells.push(l);
        }
    }
}

fn blank_cells(n: u128) -> (s: String)
    ensures
        s@ == blanks(n as nat),
{
    let mut s = String::new();
    assert(s@ =~= Seq::<char>::empty());
    let mut i: u128 = 0;
    while i < n
        invariant
            i <= n,
            s@ == blanks(i as nat),
        decreases n - i,
    {
        s.append("<td></td>");
        i += 1;
    }
    s
}

/// The file name of the image of a picture.
pub fn image_name(stem: &str, idx: usize) -> (s: String)
    ensures
        s@ == image_text(stem@, idx),
{
    let mut s = String::from_str("graphs/");
    s.append(stem);
    s.append("_g");
    s.append(padded(idx as u128, 4).as_str());
    s.append(".png");
    s
}

/// The file name of the document of a picture.
pub open spec fn document_text(stem: Seq<char>, idx: usize) -> Seq<char> {
    stem + "_g"@ + padded_of(idx as nat, 4) + ".tex"@
}

pub fn document_name(stem: &str, idx: usize) -> (s: String)
    ensures
        s@ == document_text(stem@, idx),
{
    let mut s = String::from_str(stem);
    s.append("_g");
    s.append(padded(idx as u128, 4).as_str());
    s.append(".tex");
    s
}

fn show_cell(stem: &str, c: Cell) -> (s: String)
    ensures
        s@ == cell_html(stem@, c),
{
    let mut s = String::from_str("\n          <td class=\"");
    s.append(if c.complete {
        "border border-danger border-2 border-dashed"
    } else {
        ""
    });
    s.append("\">\n            <img src=\"");
    s.append(image_name(stem, c.idx).as_str());
    s.append("\" alt=\"Graph ");
    s.append(decimal(c.idx as u128).as_str());
    s.append("\">\n          </td>");
    s
}

fn show_row(cells: &Vec<Cell>, stem: &str) -> (s: String)
    requires
        forall|i: int| 0 <= i < cells@.len() ==> (#[trigger] cells@[i]).col <= 2 * usize::MAX,
    ensures
        s@ == row_html(cells@, stem@),
{
    let mut text = String::new();
    assert(text@ =~= Seq::<char>::empty());
    let mut col: u128 = 0;
    let mut i: usize = 0;
    while i < cells.len()
        invariant
            i <= cells.len(),
            forall|k: int| 0 <= k < cells@.len() ==> (#[trigger] cells@[k]).col <= 2 * usize::MAX,
            (text@, col as nat) == row_upto(cells@, stem@, i as nat),
            col <= 2 * usize::MAX + 1 + i,
        decreases cells.len() - i,
    {
        let c = cells[i];
        assert(cells@[i as int].col <= 2 * usize::MAX);
        if col < c.col {
            text.append(blank_cells(c.col - col).as_str());
            col = c.col;
        } else {
            text.append(blank_cells(0).as_str());
        }
        text.append(show_cell(stem, c).as_str());
        col = col + 1;
        i += 1;
    }
    let mut s = String::from_str("<tr>");
    s.append(text.as_str());
    s.append("</tr>");
    s
}

impl Manifest {
    fn row_cells(&self, row: usize) -> (cells: Vec<Cell>)
        ensures
            cells@ == cells_upto(self@, row, self@.graphs.len()),
            forall|i: int| 0 <= i < cells@.len() ==> (#[trigger] cells@[i]).col <= 2 * usize::MAX,
    {
        let start: u128 = match find(&self.row_starts, row) {
            Some(s) => s as u128,
            None => 0,
        };
        let mut cells: Vec<Cell> = Vec::new();
        let mut i: usize = 0;
        while i < self.graphs.len()
            invariant
                i <= self.graphs.len(),
                start == start_of(self@, row),
                start <= usize::MAX,
                cells@ == cells_upto(self@, row, i as nat),
                forall|k: int|
                    0 <= k < cells@.len() ==> (#[trigger] cells@[k]).col <= 2 * usize::MAX,
            decreases self.graphs.len() - i,
        {
            let (idx, slot) = (self.graphs[i].0, self.graphs[i].1);
            if slot.row == row {
                let c = Cell { col: start + slot.col as u128, idx, complete: slot.complete };
                proof {
                    lemma_with_cell(cells@, c);
                }
                insert_cell(&mut cells, c);
            }
            i += 1;
        }
        cells
    }

    /// The page that shows all pictures.
    pub fn gallery_html(&self, stem: &str) -> (out: String)
        ensures
            out@ == gallery_of(self@, stem@),
    {
        let mut rows: Vec<(usize, ())> = Vec::new();
        let mut i: usize = 0;
        while i < self.graphs.len()
            invariant
                i <= self.graphs.len(),
                rows@ == rows_upto(self@, i as nat),
            decreases self.graphs.len() - i,
        {
            put(&mut rows, self.graphs[i].1.row, ());
            i += 1;
        }
        let mut body = String::new();
        assert(body@ =~= Seq::<char>::empty());
        let mut k: usize = 0;
        while k < rows.len()
            invariant
                k <= rows.len(),
                rows@ == rows_upto(self@, self@.graphs.len()),
                body@ == rows_html(self@, stem@, k as nat),
            decreases rows.len() - k,
        {
            let cells = self.row_cells(rows[k].0);
            body.append(show_row(&cells, stem).as_str());
            k += 1;
        }
        let mut out = String::from_str(
            "<!doctype html>\n<html lang=\"en\">\n<head>\n  <meta charset=\"utf-8\">\n  <meta name=\"viewport\" content=\"width=device-width, initial-scale=1\">\n  <link href=\"https://cdn.jsdelivr.net/npm/bootstrap@5.3.3/dist/css/bootstrap.min.css\" rel=\"stylesheet\">\n  <style>\n    table.graph-table { width: max-content; border-collapse: separate; border-spacing: 8px; }\n    table.graph-table td { padding: 8px; border: 1px solid #dee2e6; background: #ffffff; vertical-align: top; }\n    table.graph-table img { display: block; width: 100%; height: auto; }\n  </style>\n  <title>TraceForge Graphs</title>\n</head>\n<body>\n  <div class=\"container-fluid py-3\">\n    <div class=\"mb-3 d-flex align-items-center gap-3\">\n      <label for=\"scaleRange\" class=\"form-label mb-0\">Scale</label>\n      <input type=\"range\" class=\"form-range w-auto\" id=\"scaleRange\" min=\"10\" max=\"150\" value=\"100\" step=\"10\" style=\"max-width: 240px;\">\n      <span id=\"scaleValue\" class=\"small text-muted\">100%</span>\n    </div>\n    <h1 class=\"h4 mb-3\">Execution Graphs</h1>\n    <div class=\"table-responsive\">\n      <table class=\"graph-table\">\n        <tbody>",
        );
        out.append(body.as_str());
        out.append(
            "\n        </tbody>\n      </table>\n    </div>\n    <script>\n      (function() {\n        const range = document.getElementById('scaleRange');\n        const value = document.getElementById('scaleValue');\n        const imgs = Array.from(document.querySelectorAll('table.graph-table img'));\n        // Capture base widths once images have loaded\n        imgs.forEach(img => {\n          const setBase = () => {\n            const base = img.naturalWidth || img.clientWidth || 240;\n            img.dataset.baseWidth = base.toString();\n            img.dataset.baseHeight = (img.naturalHeight || img.clientHeight || 180).toString();\n          };\n          if (img.complete) {\n            setBase();\n          } else {\n            img.addEventListener('load', setBase, { once: true });\n          }\n        });\n        function apply() {\n          const scale = parseInt(range.value, 10) / 100;\n          value.textContent = `${scale * 100}%`;\n          imgs.forEach(img => {\n            const baseW = parseFloat(img.dataset.baseWidth || '240');\n            const baseH = parseFloat(img.dataset.baseHeight || '180');\n            const w = baseW * scale;\n            const h = baseH * scale;\n            img.style.width = `${w}px`;\n            img.style.height = `${h}px`;\n            const td = img.closest('td');\n            if (td) {\n              td.style.width = `${w + 16}px`; // include padding/border slack\n            }\n          });\n        }\n        range.addEventListener('input', apply);\n        apply();\n      })();\n    </script>\n  </div>\n</body>\n</html>\n",
        );
        out
    }
}

proof fn lemma_with_cell(cells: Seq<Cell>, c: Cell)
    requires
        forall|i: int| 0 <= i < cells.len() ==> (#[trigger] cells[i]).col <= 2 * usize::MAX,
        c.col <= 2 * usize::MAX,
    ensures
        forall|i: int|
            0 <= i < with_cell(cells, c).len() ==> (#[trigger] with_cell(cells, c)[i]).col <= 2
                * usize::MAX,
    decreases cells.len(),
{
    if cells.len() > 0 && cells.last().col > c.col {
        let shorter = cells.drop_last();
        assert forall|i: int| 0 <= i < shorter.len() implies (#[trigger] shorter[i]).col <= 2
            * usize::MAX by {
            assert(shorter[i] == cells[i]);
        }
        lemma_with_cell(shorter, c);
        let inner = with_cell(shorter, c);
        let after = with_cell(cells, c);
        assert forall|i: int| 0 <= i < after.len() implies (#[trigger] after[i]).col <= 2
            * usize::MAX by {
            if i < inner.len() {
                assert(after[i] == inner[i]);
            } else {
                assert(after[i] == cells[cells.len() - 1]);
            }
        }
    }
}


proof fn lemma_row_line(m: ManifestView, entry: (usize, usize))
    ensures
        with_line(m, row_line(entry)) == (ManifestView {
            row_starts: put_in(m.row_starts, entry.0, entry.1),
            ..m
        }),
{
    reveal_strlit("R");
    reveal_strlit("R ");
    reveal_strlit("G");
    reveal_strlit(" ");
    let a = decimal_of(entry.0 as nat);
    let b = decimal_of(entry.1 as nat);
    let tokens = seq!["R"@, a, b];
    lemma_decimal_digits(entry.0 as nat);
    lemma_decimal_digits(entry.1 as nat);
    assert(is_word("R"@));
    assert forall|i: int| 0 <= i < tokens.len() implies is_word(#[trigger] tokens[i]) by {}
    law_words_round_trip(tokens);
    reveal_with_fuel(joined, 4);
    assert(joined(tokens, " "@, 3) == "R"@ + " "@ + a + " "@ + b);
    assert("R"@ + " "@ =~= "R "@);
    assert(words_of(row_line(entry)) == tokens);
    law_decimal_is_number(entry.0 as nat, largest());
    law_decimal_is_number(entry.1 as nat, largest());
    assert(tokens[0] == "R"@ && tokens[1] == a && tokens[2] == b);
}

proof fn lemma_graph_line(m: ManifestView, entry: (usize, Slot))
    ensures
        with_line(m, graph_line(entry)) == (ManifestView {
            graphs: put_in(m.graphs, entry.0, entry.1),
            ..m
        }),
{
    reveal_strlit("G");
    reveal_strlit("G ");
    reveal_strlit(" ");
    reveal_strlit(" 0");
    reveal_strlit(" 1");
    let a = decimal_of(entry.0 as nat);
    let b = decimal_of(entry.1.row as nat);
    let c = decimal_of(entry.1.col as nat);
    let flag: nat = if entry.1.complete {
        1
    } else {
        0
    };
    let d = decimal_of(flag);
    let tokens = seq!["G"@, a, b, c, d];
    lemma_decimal_digits(entry.0 as nat);
    lemma_decimal_digits(entry.1.row as nat);
    lemma_decimal_digits(entry.1.col as nat);
    lemma_decimal_digits(flag);
    assert(is_word("G"@));
    assert forall|i: int| 0 <= i < tokens.len() implies is_word(#[trigger] tokens[i]) by {}
    law_words_round_trip(tokens);
    reveal_with_fuel(joined, 6);
    assert(joined(tokens, " "@, 5) == "G"@ + " "@ + a + " "@ + b + " "@ + c + " "@ + d);
    assert("G"@ + " "@ =~= "G "@);
    let tail = if entry.1.complete {
        " 1"@
    } else {
        " 0"@
    };
    assert(" "@ + d =~= tail);
    let body = "G "@ + a + " "@ + b + " "@ + c;
    assert(body + " "@ + d =~= body + tail);
    assert(words_of(graph_line(entry)) == tokens);
    law_decimal_is_number(entry.0 as nat, largest());
    law_decimal_is_number(entry.1.row as nat, largest());
    law_decimal_is_number(entry.1.col as nat, largest());
    law_decimal_is_number(flag, 255);
    assert(tokens[0] == "G"@ && tokens[1] == a && tokens[2] == b && tokens[3] == c && tokens[4]
        == d);
}

proof fn lemma_put_next<V>(list: Seq<(usize, V)>, k: int)
    requires
        keys_sorted(list),
        0 <= k < list.len(),
    ensures
        put_in(list.take(k), list[k].0, list[k].1) == list.take(k + 1),
{
    let before = list.take(k);
    if k > 0 {
        assert(before.last() == list[k - 1]);
    }
    assert(before.push(list[k]) =~= list.take(k + 1));
    if k == 0 {
        assert(seq![list[k]] =~= list.take(1));
    }
}

/// Reading the file of a manifest gives the manifest back.
pub proof fn law_manifest_round_trip(m: ManifestView)
    requires
        manifest_ok(m),
    ensures
        manifest_of(lines_of(m), lines_of(m).len()) == m,
{
    lemma_lines(m, lines_of(m).len());
    assert(m.graphs.take(m.graphs.len() as int) =~= m.graphs);
    assert(m.row_starts.take(m.row_starts.len() as int) =~= m.row_starts);
}

proof fn lemma_lines(m: ManifestView, n: nat)
    requires
        manifest_ok(m),
        n <= lines_of(m).len(),
    ensures
        n <= m.row_starts.len() ==> manifest_of(lines_of(m), n) == (ManifestView {
            graphs: Seq::empty(),
            row_starts: m.row_starts.take(n as int),
        }),
        n > m.row_starts.len() ==> manifest_of(lines_of(m), n) == (ManifestView {
            graphs: m.graphs.take(n - m.row_starts.len()),
            row_starts: m.row_starts,
        }),
    decreases n,
{
    let rows = m.row_starts.len();
    if n == 0 {
        assert(m.row_starts.take(0) =~= Seq::<(usize, usize)>::empty());
    } else {
        lemma_lines(m, (n - 1) as nat);
        let before = manifest_of(lines_of(m), (n - 1) as nat);
        if n <= rows {
            assert(lines_of(m)[n - 1] == row_line(m.row_starts[n - 1]));
            lemma_row_line(before, m.row_starts[n - 1]);
            lemma_put_next(m.row_starts, n - 1);
        } else {
            let k = n - 1 - rows;
            assert(lines_of(m)[n - 1] == graph_line(m.graphs[k]));
            lemma_graph_line(before, m.graphs[k]);
            lemma_put_next(m.graphs, k);
            if k == 0 {
                assert(m.row_starts.take(rows as int) =~= m.row_starts);
                assert(m.graphs.take(0) =~= Seq::<(usize, Slot)>::empty());
            }
        }
    }
}

} // verus!
