use vstd::prelude::*;

verus! {

/// Bit for a square that holds a queen.
const QUEEN_BIT: u8 = 1;

/// Bit for a square attacked along its row.
const HORIZONTAL_BIT: u8 = 2;

/// Bit for a square attacked along its column.
const VERTICAL_BIT: u8 = 4;

/// Bit for a square attacked along its principal diagonal.
const PRINCIPAL_BIT: u8 = 8;

/// Bit for a square attacked along its anti-diagonal.
const ANTIDIAGONAL_BIT: u8 = 16;

/// One square of a board, packed into a byte: a queen flag plus one
/// independent flag per attack line through the square.
#[derive(Debug, Default, Clone, Copy, PartialEq, Eq, PartialOrd, Ord, Hash)]
pub struct Cell {
    content: u8,
}

impl Cell {
    /// The square holds a queen.
    pub closed spec fn spec_queen(self) -> bool {
        self.content & QUEEN_BIT == QUEEN_BIT
    }

    /// The square is attacked along its row.
    pub closed spec fn spec_horizontal(self) -> bool {
        self.content & HORIZONTAL_BIT == HORIZONTAL_BIT
    }

    /// The square is attacked along its column.
    pub closed spec fn spec_vertical(self) -> bool {
        self.content & VERTICAL_BIT == VERTICAL_BIT
    }

    /// The square is attacked along its principal diagonal.
    pub closed spec fn spec_principal(self) -> bool {
        self.content & PRINCIPAL_BIT == PRINCIPAL_BIT
    }

    /// The square is attacked along its anti-diagonal.
    pub closed spec fn spec_antidiagonal(self) -> bool {
        self.content & ANTIDIAGONAL_BIT == ANTIDIAGONAL_BIT
    }

    /// None of the five flags is set: the square can receive a queen.
    pub closed spec fn spec_free(self) -> bool {
        self.content == 0
    }

    /// Only the five flag bits are in use.
    pub closed spec fn valid(self) -> bool {
        self.content < 32
    }

    pub fn new(content: u8) -> (r: Self)
        ensures
            r.spec_queen() == (content & 1 == 1),
            r.spec_horizontal() == (content & 2 == 2),
            r.spec_vertical() == (content & 4 == 4),
            r.spec_principal() == (content & 8 == 8),
            r.spec_antidiagonal() == (content & 16 == 16),
            r.spec_free() == (content == 0),
            r.valid() == (content < 32),
            content == 0 ==> !r.spec_queen() && !r.spec_horizontal() && !r.spec_vertical()
                && !r.spec_principal() && !r.spec_antidiagonal(),
    {
        proof {
            assert(content == 0 ==> content & QUEEN_BIT != QUEEN_BIT && content & HORIZONTAL_BIT
                != HORIZONTAL_BIT && content & VERTICAL_BIT != VERTICAL_BIT && content
                & PRINCIPAL_BIT != PRINCIPAL_BIT && content & ANTIDIAGONAL_BIT
                != ANTIDIAGONAL_BIT) by (bit_vector);
        }
        Self { content }
    }

    pub fn is_queen(&self) -> (r: bool)
        ensures
            r == self.spec_queen(),
    {
        (self.content & QUEEN_BIT) == QUEEN_BIT
    }

    /// Some flag is set: the square holds a queen or lies on a queen's line.
    pub fn is_attacked(&self) -> (r: bool)
        ensures
            r == !self.spec_free(),
    {
        self.content != 0
    }

    pub fn is_attacked_horizontal(&self) -> (r: bool)
        ensures
            r == self.spec_horizontal(),
    {
        (self.content & HORIZONTAL_BIT) == HORIZONTAL_BIT
    }

    pub fn is_attacked_vertical(&self) -> (r: bool)
        ensures
            r == self.spec_vertical(),
    {
        (self.content & VERTICAL_BIT) == VERTICAL_BIT
    }

    pub fn is_attacked_principal(&self) -> (r: bool)
        ensures
            r == self.spec_principal(),
    {
        (self.content & PRINCIPAL_BIT) == PRINCIPAL_BIT
    }

    pub fn is_attacked_antidiagonal(&self) -> (r: bool)
        ensures
            r == self.spec_antidiagonal(),
    {
        (self.content & ANTIDIAGONAL_BIT) == ANTIDIAGONAL_BIT
    }

    pub fn is_free(&self) -> (r: bool)
        ensures
            r == self.spec_free(),
    {
        self.content == 0
    }

    pub fn clear(&mut self)
        ensures
            final(self).spec_free(),
            !final(self).spec_queen(),
            !final(self).spec_horizontal(),
            !final(self).spec_vertical(),
            !final(self).spec_principal(),
            !final(self).spec_antidiagonal(),
            final(self).valid(),
    {
        self.content = 0;
        proof {
            let n = self.content;
            assert(n == 0 ==> n & QUEEN_BIT != QUEEN_BIT && n & HORIZONTAL_BIT != HORIZONTAL_BIT
                && n & VERTICAL_BIT != VERTICAL_BIT && n & PRINCIPAL_BIT != PRINCIPAL_BIT
                && n & ANTIDIAGONAL_BIT != ANTIDIAGONAL_BIT) by (bit_vector);
        }
    }

    pub fn put_queen(&mut self)
        ensures
            final(self).spec_queen(),
            final(self).spec_horizontal() == old(self).spec_horizontal(),
            final(self).spec_vertical() == old(self).spec_vertical(),
            final(self).spec_principal() == old(self).spec_principal(),
            final(self).spec_antidiagonal() == old(self).spec_antidiagonal(),
            old(self).valid() ==> final(self).valid(),
            !final(self).spec_free(),
    {
        let ghost o = self.content;
        self.content = self.content | QUEEN_BIT;
        proof {
            let n = self.content;
            assert((o | QUEEN_BIT) & QUEEN_BIT == QUEEN_BIT
                && (o | QUEEN_BIT) & HORIZONTAL_BIT == o & HORIZONTAL_BIT
                && (o | QUEEN_BIT) & VERTICAL_BIT == o & VERTICAL_BIT
                && (o | QUEEN_BIT) & PRINCIPAL_BIT == o & PRINCIPAL_BIT
                && (o | QUEEN_BIT) & ANTIDIAGONAL_BIT == o & ANTIDIAGONAL_BIT
                && (o < 32 ==> (o | QUEEN_BIT) < 32)
                && (o | QUEEN_BIT) != 0) by (bit_vector);
        }
    }

    pub fn remove_queen(&mut self)
        ensures
            !final(self).spec_queen(),
            final(self).spec_horizontal() == old(self).spec_horizontal(),
            final(self).spec_vertical() == old(self).spec_vertical(),
            final(self).spec_principal() == old(self).spec_principal(),
            final(self).spec_antidiagonal() == old(self).spec_antidiagonal(),
            old(self).valid() ==> final(self).valid(),
    {
        let ghost o = self.content;
        self.content = self.content & !QUEEN_BIT;
        proof {
            let n = self.content;
            assert((o & !QUEEN_BIT) & QUEEN_BIT != QUEEN_BIT
                && (o & !QUEEN_BIT) & HORIZONTAL_BIT == o & HORIZONTAL_BIT
                && (o & !QUEEN_BIT) & VERTICAL_BIT == o & VERTICAL_BIT
                && (o & !QUEEN_BIT) & PRINCIPAL_BIT == o & PRINCIPAL_BIT
                && (o & !QUEEN_BIT) & ANTIDIAGONAL_BIT == o & ANTIDIAGONAL_BIT
                && (o < 32 ==> (o & !QUEEN_BIT) < 32)) by (bit_vector);
        }
    }

    pub fn attack_horizontal(&mut self)
        ensures
            final(self).spec_horizontal(),
            final(self).spec_queen() == old(self).spec_queen(),
            final(self).spec_vertical() == old(self).spec_vertical(),
            final(self).spec_principal() == old(self).spec_principal(),
            final(self).spec_antidiagonal() == old(self).spec_antidiagonal(),
            old(self).valid() ==> final(self).valid(),
    {
        let ghost o = self.content;
        self.content = self.content | HORIZONTAL_BIT;
        proof {
            let n = self.content;
            assert((o | HORIZONTAL_BIT) & HORIZONTAL_BIT == HORIZONTAL_BIT
                && (o | HORIZONTAL_BIT) & QUEEN_BIT == o & QUEEN_BIT
                && (o | HORIZONTAL_BIT) & VERTICAL_BIT == o & VERTICAL_BIT
                && (o | HORIZONTAL_BIT) & PRINCIPAL_BIT == o & PRINCIPAL_BIT
                && (o | HORIZONTAL_BIT) & ANTIDIAGONAL_BIT == o & ANTIDIAGONAL_BIT
                && (o < 32 ==> (o | HORIZONTAL_BIT) < 32)) by (bit_vector);
        }
    }

    pub fn attack_vertical(&mut self)
        ensures
            final(self).spec_vertical(),
            final(self).spec_queen() == old(self).spec_queen(),
            final(self).spec_horizontal() == old(self).spec_horizontal(),
            final(self).spec_principal() == old(self).spec_principal(),
            final(self).spec_antidiagonal() == old(self).spec_antidiagonal(),
            old(self).valid() ==> final(self).valid(),
    {
        let ghost o = self.content;
        self.content = self.content | VERTICAL_BIT;
        proof {
            let n = self.content;
            assert((o | VERTICAL_BIT) & VERTICAL_BIT == VERTICAL_BIT
                && (o | VERTICAL_BIT) & QUEEN_BIT == o & QUEEN_BIT
                && (o | VERTICAL_BIT) & HORIZONTAL_BIT == o & HORIZONTAL_BIT
                && (o | VERTICAL_BIT) & PRINCIPAL_BIT == o & PRINCIPAL_BIT
                && (o | VERTICAL_BIT) & ANTIDIAGONAL_BIT == o & ANTIDIAGONAL_BIT
                && (o < 32 ==> (o | VERTICAL_BIT) < 32)) by (bit_vector);
        }
    }

    pub fn attack_principal(&mut self)
        ensures
            final(self).spec_principal(),
            final(self).spec_queen() == old(self).spec_queen(),
            final(self).spec_horizontal() == old(self).spec_horizontal(),
            final(self).spec_vertical() == old(self).spec_vertical(),
            final(self).spec_antidiagonal() == old(self).spec_antidiagonal(),
            old(self).valid() ==> final(self).valid(),
    {
        let ghost o = self.content;
        self.content = self.content | PRINCIPAL_BIT;
        proof {
            let n = self.content;
            assert((o | PRINCIPAL_BIT) & PRINCIPAL_BIT == PRINCIPAL_BIT
                && (o | PRINCIPAL_BIT) & QUEEN_BIT == o & QUEEN_BIT
                && (o | PRINCIPAL_BIT) & HORIZONTAL_BIT == o & HORIZONTAL_BIT
                && (o | PRINCIPAL_BIT) & VERTICAL_BIT == o & VERTICAL_BIT
                && (o | PRINCIPAL_BIT) & ANTIDIAGONAL_BIT == o & ANTIDIAGONAL_BIT
                && (o < 32 ==> (o | PRINCIPAL_BIT) < 32)) by (bit_vector);
        }
    }

    pub fn attack_antidiagonal(&mut self)
        ensures
            final(self).spec_antidiagonal(),
            final(self).spec_queen() == old(self).spec_queen(),
            final(self).spec_horizontal() == old(self).spec_horizontal(),
            final(self).spec_vertical() == old(self).spec_vertical(),
            final(self).spec_principal() == old(self).spec_principal(),
            old(self).valid() ==> final(self).valid(),
    {
        let ghost o = self.content;
        self.content = self.content | ANTIDIAGONAL_BIT;
        proof {
            let n = self.content;
            assert((o | ANTIDIAGONAL_BIT) & ANTIDIAGONAL_BIT == ANTIDIAGONAL_BIT
                && (o | ANTIDIAGONAL_BIT) & QUEEN_BIT == o & QUEEN_BIT
                && (o | ANTIDIAGONAL_BIT) & HORIZONTAL_BIT == o & HORIZONTAL_BIT
                && (o | ANTIDIAGONAL_BIT) & VERTICAL_BIT == o & VERTICAL_BIT
                && (o | ANTIDIAGONAL_BIT) & PRINCIPAL_BIT == o & PRINCIPAL_BIT
                && (o < 32 ==> (o | ANTIDIAGONAL_BIT) < 32)) by (bit_vector);
        }
    }

    pub fn lift_horizontal(&mut self)
        ensures
            !final(self).spec_horizontal(),
            final(self).spec_queen() == old(self).spec_queen(),
            final(self).spec_vertical() == old(self).spec_vertical(),
            final(self).spec_principal() == old(self).spec_principal(),
            final(self).spec_antidiagonal() == old(self).spec_antidiagonal(),
            old(self).valid() ==> final(self).valid(),
    {
        let ghost o = self.content;
        self.content = self.content & !HORIZONTAL_BIT;
        proof {
            let n = self.content;
            assert((o & !HORIZONTAL_BIT) & HORIZONTAL_BIT != HORIZONTAL_BIT
                && (o & !HORIZONTAL_BIT) & QUEEN_BIT == o & QUEEN_BIT
                && (o & !HORIZONTAL_BIT) & VERTICAL_BIT == o & VERTICAL_BIT
                && (o & !HORIZONTAL_BIT) & PRINCIPAL_BIT == o & PRINCIPAL_BIT
                && (o & !HORIZONTAL_BIT) & ANTIDIAGONAL_BIT == o & ANTIDIAGONAL_BIT
                && (o < 32 ==> (o & !HORIZONTAL_BIT) < 32)) by (bit_vector);
        }
    }

    pub fn lift_vertical(&mut self)
        ensures
            !final(self).spec_vertical(),
            final(self).spec_queen() == old(self).spec_queen(),
            final(self).spec_horizontal() == old(self).spec_horizontal(),
            final(self).spec_principal() == old(self).spec_principal(),
            final(self).spec_antidiagonal() == old(self).spec_antidiagonal(),
            old(self).valid() ==> final(self).valid(),
    {
        let ghost o = self.content;
        self.content = self.content & !VERTICAL_BIT;
        proof {
            let n = self.content;
            assert((o & !VERTICAL_BIT) & VERTICAL_BIT != VERTICAL_BIT
                && (o & !VERTICAL_BIT) & QUEEN_BIT == o & QUEEN_BIT
                && (o & !VERTICAL_BIT) & HORIZONTAL_BIT == o & HORIZONTAL_BIT
                && (o & !VERTICAL_BIT) & PRINCIPAL_BIT == o & PRINCIPAL_BIT
                && (o & !VERTICAL_BIT) & ANTIDIAGONAL_BIT == o & ANTIDIAGONAL_BIT
                && (o < 32 ==> (o & !VERTICAL_BIT) < 32)) by (bit_vector);
        }
    }

    pub fn lift_principal(&mut self)
        ensures
            !final(self).spec_principal(),
            final(self).spec_queen() == old(self).spec_queen(),
            final(self).spec_horizontal() == old(self).spec_horizontal(),
            final(self).spec_vertical() == old(self).spec_vertical(),
            final(self).spec_antidiagonal() == old(self).spec_antidiagonal(),
            old(self).valid() ==> final(self).valid(),
    {
        let ghost o = self.content;
        self.content = self.content & !PRINCIPAL_BIT;
        proof {
            let n = self.content;
            assert((o & !PRINCIPAL_BIT) & PRINCIPAL_BIT != PRINCIPAL_BIT
                && (o & !PRINCIPAL_BIT) & QUEEN_BIT == o & QUEEN_BIT
                && (o & !PRINCIPAL_BIT) & HORIZONTAL_BIT == o & HORIZONTAL_BIT
                && (o & !PRINCIPAL_BIT) & VERTICAL_BIT == o & VERTICAL_BIT
                && (o & !PRINCIPAL_BIT) & ANTIDIAGONAL_BIT == o & ANTIDIAGONAL_BIT
                && (o < 32 ==> (o & !PRINCIPAL_BIT) < 32)) by (bit_vector);
        }
    }

    pub fn lift_antidiagonal(&mut self)
        ensures
            !final(self).spec_antidiagonal(),
            final(self).spec_queen() == old(self).spec_queen(),
            final(self).spec_horizontal() == old(self).spec_horizontal(),
            final(self).spec_vertical() == old(self).spec_vertical(),
            final(self).spec_principal() == old(self).spec_principal(),
            old(self).valid() ==> final(self).valid(),
    {
        let ghost o = self.content;
        self.content = self.content & !ANTIDIAGONAL_BIT;
        proof {
            let n = self.content;
            assert((o & !ANTIDIAGONAL_BIT) & ANTIDIAGONAL_BIT != ANTIDIAGONAL_BIT
                && (o & !ANTIDIAGONAL_BIT) & QUEEN_BIT == o & QUEEN_BIT
                && (o & !ANTIDIAGONAL_BIT) & HORIZONTAL_BIT == o & HORIZONTAL_BIT
                && (o & !ANTIDIAGONAL_BIT) & VERTICAL_BIT == o & VERTICAL_BIT
                && (o & !ANTIDIAGONAL_BIT) & PRINCIPAL_BIT == o & PRINCIPAL_BIT
                && (o < 32 ==> (o & !ANTIDIAGONAL_BIT) < 32)) by (bit_vector);
        }
    }
}

/// A free square has no flag at all: neither a queen nor any attack mark.
pub proof fn lemma_free_cell(c: Cell)
    requires
        c.valid(),
    ensures
        c.spec_free() <==> (!c.spec_queen() && !c.spec_horizontal() && !c.spec_vertical()
            && !c.spec_principal() && !c.spec_antidiagonal()),
{
    let x = c.content;
    assert(x < 32 ==> ((x == 0) <==> (x & QUEEN_BIT != QUEEN_BIT && x & HORIZONTAL_BIT
        != HORIZONTAL_BIT && x & VERTICAL_BIT != VERTICAL_BIT && x & PRINCIPAL_BIT
        != PRINCIPAL_BIT && x & ANTIDIAGONAL_BIT != ANTIDIAGONAL_BIT))) by (bit_vector);
}

/// Two squares that agree on all five flags are the same square.
pub proof fn lemma_cell_determined(c1: Cell, c2: Cell)
    requires
        c1.valid(),
        c2.valid(),
        c1.spec_queen() == c2.spec_queen(),
        c1.spec_horizontal() == c2.spec_horizontal(),
        c1.spec_vertical() == c2.spec_vertical(),
        c1.spec_principal() == c2.spec_principal(),
        c1.spec_antidiagonal() == c2.spec_antidiagonal(),
    ensures
        c1 == c2,
{
    let x = c1.content;
    let y = c2.content;
    assert(x < 32 && y < 32 && (x & QUEEN_BIT == QUEEN_BIT) == (y & QUEEN_BIT == QUEEN_BIT)
        && (x & HORIZONTAL_BIT == HORIZONTAL_BIT) == (y & HORIZONTAL_BIT == HORIZONTAL_BIT)
        && (x & VERTICAL_BIT == VERTICAL_BIT) == (y & VERTICAL_BIT == VERTICAL_BIT)
        && (x & PRINCIPAL_BIT == PRINCIPAL_BIT) == (y & PRINCIPAL_BIT == PRINCIPAL_BIT)
        && (x & ANTIDIAGONAL_BIT == ANTIDIAGONAL_BIT) == (y & ANTIDIAGONAL_BIT
            == ANTIDIAGONAL_BIT) ==> x == y) by (bit_vector);
}

} // verus!
