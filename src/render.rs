//! The board as text: one line per row, each cell as its label right-aligned
//! in two columns and followed by a space, the blank as `--`.
use crate::grid::flat_index;
use crate::n_puzzle::{laid_out, NPuzzle, PuzzleView, MAX_SIZE};
use vstd::arithmetic::div_mod::lemma_fundamental_div_mod_converse;
use crate::pieces::digits_value;
use vstd::prelude::*;
use vstd::string::StringExecFns;

verus! {

const SPACE: u8 = 32;

const NEWLINE: u8 = 10;

const DASH: u8 = 45;

const ZERO: u8 = 48;

const NINE: u8 = 57;

/// The character for a decimal digit.
pub open spec fn digit_char(d: int) -> char {
    seq!['0', '1', '2', '3', '4', '5', '6', '7', '8', '9'][d]
}

/// A number written in decimal, without leading zeros.
pub open spec fn decimal_text(v: nat) -> Seq<char>
    decreases v,
{
    if v < 10 {
        seq![digit_char(v as int)]
    } else {
        decimal_text(v / 10) + seq![digit_char((v % 10) as int)]
    }
}

/// A label right-aligned in two columns, then a space.
pub open spec fn label_text(v: u8) -> Seq<char> {
    (if v < 10 {
        seq![' ']
    } else {
        seq![]
    }) + decimal_text(v as nat) + seq![' ']
}

/// The text of one cell.
pub open spec fn cell_text(c: Option<u8>) -> Seq<char> {
    match c {
        Some(v) => label_text(v),
        None => seq!['-', '-', ' '],
    }
}

/// The text of the first `k` cells, with a line break after each full row.
pub open spec fn rendered_upto(v: PuzzleView, k: int) -> Seq<char>
    decreases k,
{
    if k <= 0 {
        seq![]
    } else {
        rendered_upto(v, k - 1) + cell_text(v.cells[k - 1]) + if k % (v.size as int) == 0 {
            seq!['\n']
        } else {
            seq![]
        }
    }
}

/// The text of a whole board.
pub open spec fn rendered(v: PuzzleView) -> Seq<char> {
    rendered_upto(v, v.cells.len() as int)
}

/// The text of cell `k` with the line break that may follow it.
pub open spec fn piece(v: PuzzleView, k: int) -> Seq<char> {
    cell_text(v.cells[k]) + if (k + 1) % (v.size as int) == 0 {
        seq!['\n']
    } else {
        seq![]
    }
}

/// The spaces that pad a cell's text on the left.
pub open spec fn lead(c: Option<u8>) -> int {
    if c matches Some(x) && x < 10 {
        1
    } else {
        0
    }
}

/// A cell's text without padding: its label, or `--` for the blank.
pub open spec fn token(c: Option<u8>) -> Seq<char> {
    match c {
        Some(x) => decimal_text(x as nat),
        None => seq!['-', '-'],
    }
}

/// Where the text of cell `k` starts.
pub open spec fn start_of(v: PuzzleView, k: int) -> int {
    rendered_upto(v, k).len() as int
}

/// Where the token of cell `k` starts.
pub open spec fn token_start(v: PuzzleView, k: int) -> int {
    start_of(v, k) + lead(v.cells[k])
}

/// Where the token of the cell before cell `k` ends; 0 for the first cell.
pub open spec fn after(v: PuzzleView, k: int) -> int {
    if k == 0 {
        0
    } else {
        token_start(v, k - 1) + token(v.cells[k - 1]).len()
    }
}

/// A space or a line break.
pub open spec fn is_space(c: char) -> bool {
    c as int == 32 || c as int == 10
}

proof fn lemma_digit(d: int)
    requires
        0 <= d <= 9,
    ensures
        digit_char(d) as int == 48 + d,
        '\0' <= digit_char(d) <= '\u{7f}',
{
    if d == 0 {
    } else if d == 1 {
    } else if d == 2 {
    } else if d == 3 {
    } else if d == 4 {
    } else if d == 5 {
    } else if d == 6 {
    } else if d == 7 {
    } else if d == 8 {
    } else {
    }
}

/// Value of the first `j` digits of a label's text.
pub open spec fn prefix_value(x: u8, j: int) -> int {
    digits_value(decimal_text(x as nat).take(j))
}

proof fn lemma_decimal(x: u8)
    ensures
        1 <= decimal_text(x as nat).len() <= 3,
        forall|j: int|
            0 <= j < decimal_text(x as nat).len() ==> 48 <= #[trigger] (decimal_text(x as nat)[j] as int) <= 57,
        forall|j: int|
            0 <= j < decimal_text(x as nat).len() ==> '\0' <= #[trigger] decimal_text(x as nat)[j] <= '\u{7f}',
        forall|j: int|
            0 <= j < decimal_text(x as nat).len() ==> #[trigger] prefix_value(x, j + 1) == prefix_value(x, j) * 10
                + (decimal_text(x as nat)[j] as int - 48),
        forall|j: int| 0 <= j <= decimal_text(x as nat).len() ==> #[trigger] prefix_value(x, j) <= x,
        prefix_value(x, decimal_text(x as nat).len() as int) == x,
        prefix_value(x, 0) == 0,
{
    let t = decimal_text(x as nat);
    let a = (x / 100) as int;
    let b = ((x / 10) % 10) as int;
    let c = (x % 10) as int;
    lemma_digit(a);
    lemma_digit(b);
    lemma_digit(c);
    assert(t.take(0) =~= Seq::<char>::empty());
    assert(digits_value(Seq::<char>::empty()) == 0);
    if x < 10 {
        assert(t == seq![digit_char(x as int)]);
        assert(t.take(1) =~= t);
        assert(t.take(1).drop_last() =~= Seq::<char>::empty());
        assert(prefix_value(x, 1) == x);
    } else if x < 100 {
        let t1 = decimal_text((x / 10) as nat);
        assert(t1 == seq![digit_char((x / 10) as int)]);
        lemma_digit((x / 10) as int);
        assert(t == t1 + seq![digit_char(c)]);
        assert(t.take(1) =~= t1);
        assert(t.take(1).drop_last() =~= Seq::<char>::empty());
        assert(t.take(2) =~= t);
        assert(t.take(2).drop_last() =~= t.take(1));
        assert(x as int == (x / 10) as int * 10 + c);
        assert(prefix_value(x, 1) == (x / 10) as int);
        assert(prefix_value(x, 2) == (x / 10) as int * 10 + c);
    } else {
        let t2 = decimal_text((x / 100) as nat);
        let t1 = decimal_text((x / 10) as nat);
        assert((x / 10) / 10 == x / 100);
        assert(t2 == seq![digit_char(a)]);
        assert(t1 == t2 + seq![digit_char(b)]);
        assert(t == t1 + seq![digit_char(c)]);
        assert(t.take(1) =~= t2);
        assert(t.take(1).drop_last() =~= Seq::<char>::empty());
        assert(t.take(2) =~= t1);
        assert(t.take(2).drop_last() =~= t.take(1));
        assert(t.take(3) =~= t);
        assert(t.take(3).drop_last() =~= t.take(2));
        assert(x as int == (a * 10 + b) * 10 + c);
        assert(prefix_value(x, 1) == a);
        assert(prefix_value(x, 2) == a * 10 + b);
        assert(prefix_value(x, 3) == (a * 10 + b) * 10 + c);
    }
}

/// The text of the first `k + 1` cells is that of the first `k` and then
/// cell `k`'s piece.
proof fn lemma_upto_step(v: PuzzleView, k: int)
    requires
        0 <= k,
        v.size > 0,
    ensures
        rendered_upto(v, k + 1) == rendered_upto(v, k) + piece(v, k),
        start_of(v, k + 1) == start_of(v, k) + piece(v, k).len(),
{
    assert(rendered_upto(v, k + 1) =~= rendered_upto(v, k) + piece(v, k));
}

/// Character `j` of cell `k`'s piece stands at `start_of(v, k) + j` in the
/// text of any longer prefix.
proof fn lemma_char_at(v: PuzzleView, k: int, m: int, j: int)
    requires
        0 <= k < m,
        v.size > 0,
        0 <= j < piece(v, k).len(),
    ensures
        start_of(v, k) + j < rendered_upto(v, m).len(),
        rendered_upto(v, m)[start_of(v, k) + j] == piece(v, k)[j],
    decreases m,
{
    lemma_upto_step(v, m - 1);
    if m > k + 1 {
        lemma_char_at(v, k, m - 1, j);
    }
}

/// A piece is the padding, the token, a space and perhaps a line break.
proof fn lemma_piece(v: PuzzleView, k: int)
    ensures
        piece(v, k).len() >= lead(v.cells[k]) + token(v.cells[k]).len() + 1,
        lead(v.cells[k]) == 1 ==> piece(v, k)[0] == ' ',
        forall|j: int| 0 <= j < token(v.cells[k]).len() ==> piece(v, k)[lead(v.cells[k]) + j] == #[trigger] token(v.cells[k])[j],
        forall|j: int| lead(v.cells[k]) + token(v.cells[k]).len() <= j < piece(v, k).len() ==> is_space(#[trigger] piece(v, k)[j]),
{
    match v.cells[k] {
        Some(x) => {
            lemma_decimal(x);
        },
        None => {},
    }
}

/// The text of every prefix is ASCII.
proof fn lemma_ascii(v: PuzzleView, m: int)
    requires
        0 <= m,
        v.size > 0,
    ensures
        forall|j: int| 0 <= j < rendered_upto(v, m).len() ==> '\0' <= #[trigger] rendered_upto(v, m)[j] <= '\u{7f}',
    decreases m,
{
    if m > 0 {
        lemma_ascii(v, m - 1);
        lemma_upto_step(v, m - 1);
        lemma_piece(v, m - 1);
        let c = v.cells[m - 1];
        if let Some(x) = c {
            lemma_decimal(x);
        }
        assert forall|j: int| 0 <= j < rendered_upto(v, m).len() implies '\0' <= #[trigger] rendered_upto(v, m)[j] <= '\u{7f}' by {
            if j >= start_of(v, m - 1) {
                let q = j - start_of(v, m - 1);
                if q >= lead(c) && q < lead(c) + token(c).len() {
                    assert(piece(v, m - 1)[lead(c) + (q - lead(c))] == token(c)[q - lead(c)]);
                }
            }
        }
    }
}

/// Where the tokens and the spaces between them stand in a board's text.
proof fn lemma_layout(v: PuzzleView, k: int)
    requires
        v.wf(),
        0 <= k <= v.cells.len(),
    ensures
        0 <= after(v, k) <= rendered(v).len(),
        k < v.cells.len() ==> after(v, k) <= token_start(v, k) && token_start(v, k) + token(v.cells[k]).len()
            < rendered(v).len(),
        k < v.cells.len() ==> forall|j: int| after(v, k) <= j < token_start(v, k) ==> is_space(#[trigger] rendered(v)[j]),
        k < v.cells.len() ==> forall|j: int|
            0 <= j < token(v.cells[k]).len() ==> rendered(v)[token_start(v, k) + j] == #[trigger] token(v.cells[k])[j],
        k < v.cells.len() ==> is_space(rendered(v)[token_start(v, k) + token(v.cells[k]).len()]),
        k == v.cells.len() ==> forall|j: int| after(v, k) <= j < rendered(v).len() ==> is_space(#[trigger] rendered(v)[j]),
{
    let len = v.cells.len() as int;
    if k > 0 {
        lemma_upto_step(v, k - 1);
        lemma_piece(v, k - 1);
        assert forall|j: int| after(v, k) <= j < start_of(v, k) implies is_space(#[trigger] rendered(v)[j]) by {
            lemma_char_at(v, k - 1, len, j - start_of(v, k - 1));
        }
    }
    if k < len {
        lemma_upto_step(v, k);
        lemma_piece(v, k);
        lemma_prefix_len(v, k + 1, len);
        assert forall|j: int| start_of(v, k) <= j < token_start(v, k) implies is_space(#[trigger] rendered(v)[j]) by {
            lemma_char_at(v, k, len, 0);
        }
        assert forall|j: int| 0 <= j < token(v.cells[k]).len() implies rendered(v)[token_start(v, k) + j] == #[trigger] token(v.cells[k])[j] by {
            lemma_char_at(v, k, len, lead(v.cells[k]) + j);
        }
        lemma_char_at(v, k, len, lead(v.cells[k]) + token(v.cells[k]).len());
    } else if k > 0 {
        lemma_piece(v, k - 1);
    }
    if k > 0 {
        lemma_prefix_len(v, k, len);
    }
}

/// Longer prefixes have longer text.
proof fn lemma_prefix_len(v: PuzzleView, k: int, m: int)
    requires
        0 <= k <= m,
        v.size > 0,
    ensures
        start_of(v, k) <= start_of(v, m),
    decreases m - k,
{
    if k < m {
        lemma_upto_step(v, m - 1);
        lemma_prefix_len(v, k, m - 1);
    }
}

/// What has been read of a board's text after `count` cells: the tiles in
/// order and where the blank was, if it has been passed.
pub open spec fn parsed(v: PuzzleView, count: int, tiles: Seq<u8>, has_blank: bool, blank_at: int) -> bool {
    &&& 0 <= count <= v.cells.len()
    &&& has_blank == (v.blank_index() < count)
    &&& has_blank ==> blank_at == v.blank_index()
    &&& tiles.len() == count - (if has_blank {
        1int
    } else {
        0int
    })
    &&& forall|j: int|
        0 <= j < tiles.len() ==> Some(#[trigger] tiles[j]) == v.cells[if has_blank && j >= v.blank_index() {
            j + 1
        } else {
            j
        }]
}

/// Relies on `format!` with `{:>2} `: the label in decimal, padded on the
/// left to two columns, then a space.
#[verifier::external_body]
fn format_label(v: u8) -> (r: String)
    ensures
        r@ == label_text(v),
{
    format!("{v:>2} ")
}

impl NPuzzle {
    /// The board as text, one line per row.
    pub fn render(&self) -> (r: String)
        requires
            self.wf(),
        ensures
            r@ == rendered(self@),
    {
        proof {
            self.lemma_view_wf();
        }
        let cells = self.cells();
        let n = self.size();
        let mut out = String::new();
        let mut i: usize = 0;
        while i < cells.len()
            invariant
                self@.wf(),
                cells@ == self@.cells,
                n == self@.size,
                i <= cells@.len(),
                out@ == rendered_upto(self@, i as int),
            decreases cells@.len() - i,
        {
            match cells[i] {
                Some(v) => {
                    let text = format_label(v);
                    out.append(text.as_str());
                },
                None => {
                    proof {
                        reveal_strlit("-- ");
                    }
                    out.append("-- ");
                },
            }
            if (i + 1) % n == 0 {
                proof {
                    reveal_strlit("\n");
                }
                out.append("\n");
            }
            i = i + 1;
        }
        out
    }

    /// Reads a board back from its text: whitespace-separated cells, `--`
    /// for the blank and decimal labels otherwise, filling a square grid.
    /// The text of every well-formed board is read back as that board, and
    /// a board is returned only if it renders to exactly `text`.
    pub fn from_rendered(text: &str) -> (r: Option<NPuzzle>)
        ensures
            r matches Some(p) ==> p.wf() && rendered(p@) == text@,
            forall|v: PuzzleView| v.wf() && rendered(v) == text@ ==> (r matches Some(p) && p@ == v),
    {
        if !text.is_ascii() {
            proof {
                assert forall|v: PuzzleView| v.wf() && rendered(v) == text@ implies false by {
                    lemma_ascii(v, v.cells.len() as int);
                    assert forall|j: int| 0 <= j < text@.len() implies '\0' <= #[trigger] text@[j] <= '\u{7f}' by {
                        assert('\0' <= rendered(v)[j] <= '\u{7f}');
                    }
                    assert(vstd::utf8::is_ascii_chars(text@));
                }
            }
            return None;
        }
        proof {
            vstd::string::is_ascii_spec_bytes(text);
        }
        let bytes = text.as_bytes();
        assert(bytes@ == Seq::new(text@.len(), |j: int| text@[j] as u8));
        let mut tiles: Vec<u8> = Vec::new();
        let mut count: usize = 0;
        let mut blank_at: usize = 0;
        let mut has_blank = false;
        let mut i: usize = 0;
        loop
            invariant_except_break
                bytes@ == Seq::new(text@.len(), |j: int| text@[j] as u8),
                vstd::utf8::is_ascii_chars(text@),
                i <= bytes@.len(),
                count <= i,
                forall|j: int| 0 <= j < tiles@.len() ==> #[trigger] tiles@[j] > 0,
                forall|v: PuzzleView|
                    v.wf() && rendered(v) == text@ ==> parsed(v, count as int, tiles@, has_blank, blank_at as int)
                        && i == after(v, count as int),
            ensures
                forall|j: int| 0 <= j < tiles@.len() ==> #[trigger] tiles@[j] > 0,
                forall|v: PuzzleView|
                    v.wf() && rendered(v) == text@ ==> parsed(v, count as int, tiles@, has_blank, blank_at as int)
                        && count == v.cells.len(),
            decreases bytes@.len() - i,
        {
            let ghost i0 = i;
            proof {
                assert forall|v: PuzzleView| v.wf() && rendered(v) == text@ implies after(v, count as int) <= i && (
                count < v.cells.len() ==> i <= token_start(v, count as int)) by {
                    lemma_layout(v, count as int);
                }
            }
            while i < bytes.len() && (bytes[i] == SPACE || bytes[i] == NEWLINE)
                invariant
                    bytes@ == Seq::new(text@.len(), |j: int| text@[j] as u8),
                    vstd::utf8::is_ascii_chars(text@),
                    i0 <= i <= bytes@.len(),
                    count <= i,
                    forall|v: PuzzleView|
                        v.wf() && rendered(v) == text@ ==> parsed(v, count as int, tiles@, has_blank, blank_at as int)
                            && i0 == after(v, count as int) && (count < v.cells.len() ==> i <= token_start(v, count as int)),
                decreases bytes@.len() - i,
            {
                proof {
                    assert forall|v: PuzzleView| v.wf() && rendered(v) == text@ implies (count < v.cells.len() ==> i + 1 <= token_start(v, count as int)) by {
                        lemma_layout(v, count as int);
                        if count < v.cells.len() && i == token_start(v, count as int) {
                            let c = v.cells[count as int];
                            if let Some(x) = c {
                                lemma_decimal(x);
                            }
                            assert(token(c)[0] == rendered(v)[token_start(v, count as int) + 0]);
                        }
                    }
                }
                i = i + 1;
            }
            proof {
                assert forall|v: PuzzleView| v.wf() && rendered(v) == text@ implies (i < bytes@.len() ==> count < v.cells.len() && i == token_start(v, count as int)) && (i == bytes@.len() ==> count == v.cells.len()) by {
                    lemma_layout(v, count as int);
                    if count < v.cells.len() {
                        if i < token_start(v, count as int) {
                            assert(is_space(rendered(v)[i as int]));
                        }
                    } else if i < bytes@.len() {
                        assert(is_space(rendered(v)[i as int]));
                    }
                }
            }
            if i >= bytes.len() {
                break;
            }
            let b = bytes[i];
            if b == DASH {
                if has_blank || i + 1 >= bytes.len() || bytes[i + 1] != DASH {
                    proof {
                        assert forall|v: PuzzleView| v.wf() && rendered(v) == text@ implies false by {
                            lemma_layout(v, count as int);
                            let c = v.cells[count as int];
                            if let Some(x) = c {
                                lemma_decimal(x);
                                assert(token(c)[0] == rendered(v)[token_start(v, count as int) + 0]);
                            } else {
                                assert(token(c)[1] == rendered(v)[token_start(v, count as int) + 1]);
                            }
                        }
                    }
                    return None;
                }
                proof {
                    assert forall|v: PuzzleView| v.wf() && rendered(v) == text@ implies parsed(v, count + 1, tiles@, true, count as int)
                        && i + 2 == after(v, count + 1) by {
                        lemma_layout(v, count as int);
                        let c = v.cells[count as int];
                        if let Some(x) = c {
                            lemma_decimal(x);
                            assert(token(c)[0] == rendered(v)[token_start(v, count as int) + 0]);
                        }
                        assert(c is None);
                        assert(count == v.blank_index());
                    }
                }
                has_blank = true;
                blank_at = count;
                count = count + 1;
                i = i + 2;
            } else if ZERO <= b && b <= NINE {
                let ghost t0 = i as int;
                let mut val: u32 = 0;
                proof {
                    assert forall|v: PuzzleView| v.wf() && rendered(v) == text@ implies (v.cells[count as int] matches Some(x)
                        && prefix_value(x, 0) == 0) by {
                        lemma_layout(v, count as int);
                        let c = v.cells[count as int];
                        if let Some(x) = c {
                            lemma_decimal(x);
                        }
                        assert(token(c)[0] == rendered(v)[token_start(v, count as int) + 0]);
                    }
                }
                while i < bytes.len() && ZERO <= bytes[i] && bytes[i] <= NINE
                    invariant
                        bytes@ == Seq::new(text@.len(), |j: int| text@[j] as u8),
                        vstd::utf8::is_ascii_chars(text@),
                        t0 <= i <= bytes@.len(),
                        count < t0 + 1,
                        val <= 255,
                        forall|v: PuzzleView|
                            v.wf() && rendered(v) == text@ ==> parsed(v, count as int, tiles@, has_blank, blank_at as int)
                                && t0 == token_start(v, count as int) && count < v.cells.len() && (v.cells[count as int] matches Some(x)
                                && i <= t0 + decimal_text(x as nat).len() && val == prefix_value(x, i - t0)),
                    decreases bytes@.len() - i,
                {
                    let ghost d = bytes@[i as int];
                    proof {
                        assert forall|v: PuzzleView| v.wf() && rendered(v) == text@ implies (v.cells[count as int] matches Some(x)
                            && i < t0 + decimal_text(x as nat).len() && val * 10 + (d - 48) == prefix_value(x, i - t0 + 1)
                            && prefix_value(x, i - t0 + 1) <= 255) by {
                            lemma_layout(v, count as int);
                            let x = v.cells[count as int]->0;
                            lemma_decimal(x);
                            if i == t0 + decimal_text(x as nat).len() {
                                assert(is_space(rendered(v)[i as int]));
                            }
                            assert(decimal_text(x as nat)[i - t0] == rendered(v)[token_start(v, count as int) + (i - t0)]);
                        }
                    }
                    val = val * 10 + (bytes[i] - ZERO) as u32;
                    if val > 255 {
                        return None;
                    }
                    i = i + 1;
                }
                proof {
                    assert forall|v: PuzzleView| v.wf() && rendered(v) == text@ implies (v.cells[count as int] matches Some(x)
                        && val == x && x > 0 && i == after(v, count + 1) && parsed(v, count + 1, tiles@.push(val as u8), has_blank, blank_at as int)) by {
                        lemma_layout(v, count as int);
                        let x = v.cells[count as int]->0;
                        lemma_decimal(x);
                        if i < t0 + decimal_text(x as nat).len() {
                            assert(decimal_text(x as nat)[i - t0] == rendered(v)[token_start(v, count as int) + (i - t0)]);
                        }
                        assert(count != v.blank_index());
                        let tl = tiles@.push(val as u8);
                        assert forall|j: int| 0 <= j < tl.len() implies Some(#[trigger] tl[j]) == v.cells[if has_blank && j >= v.blank_index() {
                            j + 1
                        } else {
                            j
                        }] by {
                            if j < tiles@.len() {
                                assert(tl[j] == tiles@[j]);
                            }
                        }
                    }
                }
                if val == 0 {
                    return None;
                }
                tiles.push(val as u8);
                count = count + 1;
            } else {
                proof {
                    assert forall|v: PuzzleView| v.wf() && rendered(v) == text@ implies false by {
                        lemma_layout(v, count as int);
                        let c = v.cells[count as int];
                        if let Some(x) = c {
                            lemma_decimal(x);
                        }
                        assert(token(c)[0] == rendered(v)[token_start(v, count as int) + 0]);
                    }
                }
                return None;
            }
        }
        proof {
            assert forall|v: PuzzleView| v.wf() && rendered(v) == text@ implies has_blank by {
                let (r, c) = v.blank;
                let n = v.size as int;
                assert(r * n + c < n * n) by (nonlinear_arith)
                    requires
                        0 <= r < n,
                        0 <= c < n,
                ;
            }
        }
        if !has_blank {
            return None;
        }
        let mut n: usize = 1;
        while n < MAX_SIZE
            invariant
                1 <= n <= MAX_SIZE,
                forall|v: PuzzleView| v.wf() && rendered(v) == text@ ==> n <= v.size && count == v.size * v.size,
            ensures
                1 <= n <= MAX_SIZE,
                n == MAX_SIZE || n * n >= count,
                forall|v: PuzzleView| v.wf() && rendered(v) == text@ ==> n <= v.size && count == v.size * v.size,
            decreases MAX_SIZE - n,
        {
            assert(n * n <= 256) by (nonlinear_arith)
                requires
                    n <= 16,
            ;
            if n * n >= count {
                break;
            }
            proof {
                assert forall|v: PuzzleView| v.wf() && rendered(v) == text@ implies n + 1 <= v.size by {
                    if n == v.size {
                        assert(n * n == v.size * v.size);
                    }
                }
            }
            n = n + 1;
        }
        assert(n * n <= 256) by (nonlinear_arith)
            requires
                n <= 16,
        ;
        proof {
            assert forall|v: PuzzleView| v.wf() && rendered(v) == text@ implies n == v.size by {
                if n < v.size {
                    assert(n * n < v.size * v.size) by (nonlinear_arith)
                        requires
                            n < v.size,
                    ;
                }
            }
        }
        if n * n != count {
            return None;
        }
        let blank_position = (blank_at / n, blank_at % n);
        proof {
            assert forall|v: PuzzleView| v.wf() && rendered(v) == text@ implies blank_position == v.blank && tiles@.len() + 1 == n * n
                && laid_out(tiles@, n as nat, flat_index(blank_position, n as nat)) == v.cells by {
                lemma_fundamental_div_mod_converse(blank_at as int, n as int, v.blank.0 as int, v.blank.1 as int);
                let bi = blank_at as int;
                assert(flat_index(blank_position, n as nat) == bi);
                let lo = laid_out(tiles@, n as nat, bi);
                assert forall|j: int| 0 <= j < v.cells.len() implies #[trigger] lo[j] == v.cells[j] by {
                    if j > bi {
                        assert(Some(tiles@[j - 1]) == v.cells[j]);
                    } else if j < bi {
                        assert(Some(tiles@[j]) == v.cells[j]);
                    }
                }
                assert(lo =~= v.cells);
            }
        }
        match NPuzzle::new(n, tiles, blank_position) {
            Ok(p) => {
                let again = p.render();
                if again == String::from_str(text) {
                    Some(p)
                } else {
                    None
                }
            },
            Err(_) => None,
        }
    }
}

} // verus!
