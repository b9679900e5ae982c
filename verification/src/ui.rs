//! Immediate-mode widget bookkeeping and the 3x5 bitmap font.
//!
//! Widgets are identified by the order in which they are declared within a
//! frame. Text is drawn from glyphs of five rows of three cells each.

use vstd::prelude::*;
use crate::render::canvas::Color;

verus! {

/// Width of a glyph in cells.
pub const GLYPH_W: usize = 3;

/// Height of a glyph in cells.
pub const GLYPH_H: usize = 5;

/// The glyph drawn for a character without one of its own: a box.
pub open spec fn box_glyph() -> Seq<u8> {
    seq![0b111, 0b101, 0b101, 0b101, 0b111]
}

/// The font: the five rows of a character's glyph, top row first. Each row
/// holds three cells in its low three bits, the leftmost cell in the
/// highest of them.
pub open spec fn glyph(c: char) -> Seq<u8> {
    match c {
        ' ' => seq![0, 0, 0, 0, 0],
        '-' => seq![0, 0b111, 0, 0, 0],
        '+' => seq![0b010, 0b010, 0b111, 0b010, 0b010],
        ':' => seq![0, 0b010, 0, 0b010, 0],
        '(' => seq![0b001, 0b010, 0b010, 0b010, 0b001],
        ')' => seq![0b100, 0b010, 0b010, 0b010, 0b100],
        '@' => seq![0b111, 0b101, 0b111, 0b100, 0b111],
        '0' => seq![0b111, 0b101, 0b101, 0b101, 0b111],
        '1' => seq![0b010, 0b110, 0b010, 0b010, 0b111],
        '2' => seq![0b111, 0b001, 0b111, 0b100, 0b111],
        '3' => seq![0b111, 0b001, 0b111, 0b001, 0b111],
        '4' => seq![0b101, 0b101, 0b111, 0b001, 0b001],
        '5' => seq![0b111, 0b100, 0b111, 0b001, 0b111],
        '6' => seq![0b111, 0b100, 0b111, 0b101, 0b111],
        '7' => seq![0b111, 0b001, 0b010, 0b100, 0b100],
        '8' => seq![0b111, 0b101, 0b111, 0b101, 0b111],
        '9' => seq![0b111, 0b101, 0b111, 0b001, 0b111],
        'A' => seq![0b010, 0b101, 0b111, 0b101, 0b101],
        'B' => seq![0b110, 0b101, 0b110, 0b101, 0b110],
        'C' => seq![0b011, 0b100, 0b100, 0b100, 0b011],
        'D' => seq![0b110, 0b101, 0b101, 0b101, 0b110],
        'E' => seq![0b111, 0b100, 0b110, 0b100, 0b111],
        'F' => seq![0b111, 0b100, 0b110, 0b100, 0b100],
        'G' => seq![0b011, 0b100, 0b101, 0b101, 0b011],
        'H' => seq![0b101, 0b101, 0b111, 0b101, 0b101],
        'I' => seq![0b111, 0b010, 0b010, 0b010, 0b111],
        'K' => seq![0b101, 0b110, 0b100, 0b110, 0b101],
        'L' => seq![0b100, 0b100, 0b100, 0b100, 0b111],
        'M' => seq![0b101, 0b111, 0b111, 0b101, 0b101],
        'N' => seq![0b101, 0b111, 0b111, 0b111, 0b101],
        'O' => seq![0b111, 0b101, 0b101, 0b101, 0b111],
        'P' => seq![0b110, 0b101, 0b110, 0b100, 0b100],
        'R' => seq![0b110, 0b101, 0b110, 0b110, 0b101],
        'S' => seq![0b011, 0b100, 0b011, 0b001, 0b110],
        'T' => seq![0b111, 0b010, 0b010, 0b010, 0b010],
        'U' => seq![0b101, 0b101, 0b101, 0b101, 0b111],
        'V' => seq![0b101, 0b101, 0b101, 0b101, 0b010],
        'W' => seq![0b101, 0b101, 0b111, 0b111, 0b101],
        'Y' => seq![0b101, 0b101, 0b010, 0b010, 0b010],
        _ => box_glyph(),
    }
}

/// Whether the cell in column `col` of row `row` is lit in the glyph `rows`.
pub open spec fn is_lit(rows: Seq<u8>, col: int, row: int) -> bool {
    &&& 0 <= row < rows.len()
    &&& 0 <= col < 3
    &&& if col == 0 {
        rows[row] & 4 != 0
    } else if col == 1 {
        rows[row] & 2 != 0
    } else {
        rows[row] & 1 != 0
    }
}

/// The rows of the glyph of `c`; the box for a character without a glyph.
pub fn glyph_rows(c: char) -> (rows: [u8; 5])
    ensures
        rows@ == glyph(c),
        forall|r: int| 0 <= r < 5 ==> rows@[r] < 8,
{
    let rows: [u8; 5] = match c {
            ' ' => [0, 0, 0, 0, 0],
            '-' => [0, 0b111, 0, 0, 0],
            '+' => [0b010, 0b010, 0b111, 0b010, 0b010],
            ':' => [0, 0b010, 0, 0b010, 0],
            '(' => [0b001, 0b010, 0b010, 0b010, 0b001],
            ')' => [0b100, 0b010, 0b010, 0b010, 0b100],
            '@' => [0b111, 0b101, 0b111, 0b100, 0b111],
            '0' => [0b111, 0b101, 0b101, 0b101, 0b111],
            '1' => [0b010, 0b110, 0b010, 0b010, 0b111],
            '2' => [0b111, 0b001, 0b111, 0b100, 0b111],
            '3' => [0b111, 0b001, 0b111, 0b001, 0b111],
            '4' => [0b101, 0b101, 0b111, 0b001, 0b001],
            '5' => [0b111, 0b100, 0b111, 0b001, 0b111],
            '6' => [0b111, 0b100, 0b111, 0b101, 0b111],
            '7' => [0b111, 0b001, 0b010, 0b100, 0b100],
            '8' => [0b111, 0b101, 0b111, 0b101, 0b111],
            '9' => [0b111, 0b101, 0b111, 0b001, 0b111],
            'A' => [0b010, 0b101, 0b111, 0b101, 0b101],
            'B' => [0b110, 0b101, 0b110, 0b101, 0b110],
            'C' => [0b011, 0b100, 0b100, 0b100, 0b011],
            'D' => [0b110, 0b101, 0b101, 0b101, 0b110],
            'E' => [0b111, 0b100, 0b110, 0b100, 0b111],
            'F' => [0b111, 0b100, 0b110, 0b100, 0b100],
            'G' => [0b011, 0b100, 0b101, 0b101, 0b011],
            'H' => [0b101, 0b101, 0b111, 0b101, 0b101],
            'I' => [0b111, 0b010, 0b010, 0b010, 0b111],
            'K' => [0b101, 0b110, 0b100, 0b110, 0b101],
            'L' => [0b100, 0b100, 0b100, 0b100, 0b111],
            'M' => [0b101, 0b111, 0b111, 0b101, 0b101],
            'N' => [0b101, 0b111, 0b111, 0b111, 0b101],
            'O' => [0b111, 0b101, 0b101, 0b101, 0b111],
            'P' => [0b110, 0b101, 0b110, 0b100, 0b100],
            'R' => [0b110, 0b101, 0b110, 0b110, 0b101],
            'S' => [0b011, 0b100, 0b011, 0b001, 0b110],
            'T' => [0b111, 0b010, 0b010, 0b010, 0b010],
            'U' => [0b101, 0b101, 0b101, 0b101, 0b111],
            'V' => [0b101, 0b101, 0b101, 0b101, 0b010],
            'W' => [0b101, 0b101, 0b111, 0b111, 0b101],
            'Y' => [0b101, 0b101, 0b010, 0b010, 0b010],
            _ => [0b111, 0b101, 0b101, 0b101, 0b111],
    };
    proof {
        assert(rows@ =~= glyph(c));
    }
    rows
}

/// Where a cell stands when the cells of a glyph are read row by row, each
/// row from left to right.
pub open spec fn reading_order(cell: (usize, usize)) -> int {
    cell.1 * 3 + cell.0
}

/// The bit of a row that holds the cell in column `col`.
fn cell_mask(col: usize) -> (mask: u8)
    requires
        col < 3,
    ensures
        mask == if col == 0 {
            4u8
        } else if col == 1 {
            2u8
        } else {
            1u8
        },
{
    assert(1u8 << 2u8 == 4u8) by (bit_vector);
    assert(1u8 << 1u8 == 2u8) by (bit_vector);
    assert(1u8 << 0u8 == 1u8) by (bit_vector);
    let shift: u8 = if col == 0 {
        2
    } else if col == 1 {
        1
    } else {
        0
    };
    1u8 << shift
}

/// The lit cells of the glyph of `c`, each as `(column, row)`, in the order
/// in which text is drawn: row by row from the top, each row from the left.
pub fn glyph_cells(c: char) -> (cells: Vec<(usize, usize)>)
    ensures
        forall|k: int|
            0 <= k < cells@.len() ==> is_lit(
                glyph(c),
                (#[trigger] cells@[k]).0 as int,
                cells@[k].1 as int,
            ),
        forall|col: int, row: int|
            is_lit(glyph(c), col, row) ==> cells@.contains((col as usize, row as usize)),
        forall|a: int, b: int|
            0 <= a < b < cells@.len() ==> reading_order(#[trigger] cells@[a]) < reading_order(
                #[trigger] cells@[b],
            ),
{
    let rows = glyph_rows(c);
    let mut cells: Vec<(usize, usize)> = Vec::new();
    let mut row: usize = 0;
    while row < GLYPH_H
        invariant
            row <= 5,
            rows@ == glyph(c),
            forall|k: int|
                0 <= k < cells@.len() ==> is_lit(
                    glyph(c),
                    (#[trigger] cells@[k]).0 as int,
                    cells@[k].1 as int,
                ),
            forall|k: int| 0 <= k < cells@.len() ==> (#[trigger] cells@[k]).1 < row,
            forall|x: int, y: int|
                is_lit(glyph(c), x, y) && y < row ==> cells@.contains((x as usize, y as usize)),
            forall|a: int, b: int|
                0 <= a < b < cells@.len() ==> reading_order(#[trigger] cells@[a]) < reading_order(
                    #[trigger] cells@[b],
                ),
        decreases 5 - row,
    {
        let bits: u8 = rows[row];
        let mut col: usize = 0;
        while col < GLYPH_W
            invariant
                row < 5,
                col <= 3,
                rows@ == glyph(c),
                bits == rows@[row as int],
                forall|k: int|
                    0 <= k < cells@.len() ==> is_lit(
                        glyph(c),
                        (#[trigger] cells@[k]).0 as int,
                        cells@[k].1 as int,
                    ),
                forall|k: int|
                    0 <= k < cells@.len() ==> reading_order(#[trigger] cells@[k]) < row * 3 + col,
                forall|x: int, y: int|
                    is_lit(glyph(c), x, y) && (y < row || (y == row && x < col))
                        ==> cells@.contains((x as usize, y as usize)),
                forall|a: int, b: int|
                    0 <= a < b < cells@.len() ==> reading_order(#[trigger] cells@[a])
                        < reading_order(#[trigger] cells@[b]),
            decreases 3 - col,
        {
            let mask = cell_mask(col);
            if bits & mask != 0 {
                let ghost before = cells@;
                cells.push((col, row));
                proof {
                    assert(cells@[before.len() as int] == (col, row));
                    assert forall|x: int, y: int|
                        is_lit(glyph(c), x, y) && (y < row || (y == row && x < col + 1))
                        implies cells@.contains((x as usize, y as usize)) by {
                        if y == row && x == col {
                            assert(cells@[before.len() as int] == (x as usize, y as usize));
                        } else {
                            let k = choose|k: int|
                                0 <= k < before.len() && before[k] == (x as usize, y as usize);
                            assert(cells@[k] == before[k]);
                        }
                    }
                }
            }
            col += 1;
        }
        row += 1;
    }
    cells
}

/// What the widget bookkeeping is, mathematically.
pub struct UiView {
    /// The widget under the pointer, if any was declared so far this frame.
    pub hot: Option<u64>,
    /// The widget being interacted with.
    pub active: Option<u64>,
    /// The identifier that the next widget of this frame gets.
    pub next_id: u64,
}

/// Immediate-mode widget bookkeeping: widgets get identifiers 1, 2, 3, ...
/// in the order in which a frame declares them.
pub struct Ui {
    hot: Option<u64>,
    active: Option<u64>,
    next_id: u64,
}

impl View for Ui {
    type V = UiView;

    closed spec fn view(&self) -> UiView {
        UiView { hot: self.hot, active: self.active, next_id: self.next_id }
    }
}

/// How a button looks and whether it was clicked.
#[derive(Clone, Copy, Debug)]
pub struct ButtonLook {
    /// Fill colour of the button's face.
    pub base: Color,
    /// Colour of the button's border.
    pub border: Color,
    /// Whether the button was clicked in this frame.
    pub clicked: bool,
}

/// Face of a button: brighter under the pointer.
pub open spec fn button_base(hovered: bool) -> Color {
    if hovered {
        Color(235, 235, 235, 210)
    } else {
        Color(220, 220, 220, 180)
    }
}

/// Border of a button: highlighted while it is pressed under the pointer.
pub open spec fn button_border(hovered: bool, pressed_now: bool) -> Color {
    if pressed_now && hovered {
        Color(255, 100, 200, 255)
    } else {
        Color(80, 80, 80, 220)
    }
}

impl Ui {
    /// Bookkeeping with no widget hot or active; the first widget gets
    /// identifier 1.
    pub fn new() -> (ui: Self)
        ensures
            ui@ == (UiView { hot: None, active: None, next_id: 1 }),
    {
        Ui { hot: None, active: None, next_id: 1 }
    }

    /// Starts a frame: no widget is hot, and identifiers start again at 1.
    /// The active widget is kept.
    pub fn begin(&mut self)
        ensures
            final(self)@ == (UiView { hot: None, active: old(self)@.active, next_id: 1 }),
    {
        self.hot = None;
        self.next_id = 1;
    }

    /// The identifier that the next widget of this frame gets.
    pub fn next_id(&self) -> (id: u64)
        ensures
            id == self@.next_id,
    {
        self.next_id
    }

    /// The widget under the pointer, if any was declared so far this frame.
    pub fn hot(&self) -> (id: Option<u64>)
        ensures
            id == self@.hot,
    {
        self.hot
    }

    /// Hands out the identifier of the next widget.
    pub fn make_id(&mut self) -> (id: u64)
        requires
            old(self)@.next_id < u64::MAX,
        ensures
            id == old(self)@.next_id,
            final(self)@ == (UiView { next_id: (id + 1) as u64, ..old(self)@ }),
    {
        let id = self.next_id;
        self.next_id += 1;
        id
    }

    /// Declares a button. It takes the next identifier, becomes the hot
    /// widget when the pointer is over it, and counts as clicked when the
    /// pointer's button was released over it.
    pub fn button(&mut self, hovered: bool, pressed_now: bool, just_released: bool) -> (look:
        ButtonLook)
        requires
            old(self)@.next_id < u64::MAX,
        ensures
            final(self)@.next_id == old(self)@.next_id + 1,
            final(self)@.active == old(self)@.active,
            final(self)@.hot == if hovered {
                Some(old(self)@.next_id)
            } else {
                old(self)@.hot
            },
            look.base == button_base(hovered),
            look.border == button_border(hovered, pressed_now),
            look.clicked == (hovered && just_released),
    {
        let id = self.make_id();
        if hovered {
            self.hot = Some(id);
        }
        let base = if hovered {
            Color(235, 235, 235, 210)
        } else {
            Color(220, 220, 220, 180)
        };
        let border = if pressed_now && hovered {
            Color(255, 100, 200, 255)
        } else {
            Color(80, 80, 80, 220)
        };
        ButtonLook { base, border, clicked: hovered && just_released }
    }
}

} // verus!
