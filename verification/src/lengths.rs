//! How the bytes of a torrent are cut into pieces.
use vstd::arithmetic::div_mod::{
    lemma_div_is_ordered, lemma_fundamental_div_mod, lemma_mod_bound,
};
use vstd::prelude::*;

verus! {

/// The smallest integer that is at least `a / b`.
pub open spec fn div_up(a: int, b: int) -> int {
    (a + b - 1) / b
}

/// The number of a piece that was found to exist.
#[derive(Clone, Copy, PartialEq, Eq, PartialOrd, Ord, Hash, Debug, Structural)]
pub struct ValidPieceIndex(u32);

impl View for ValidPieceIndex {
    type V = u32;

    closed spec fn view(&self) -> u32 {
        self.0
    }
}

impl ValidPieceIndex {
    /// The piece's number, counted from 0.
    pub fn get(&self) -> (n: u32)
        ensures
            n == self@,
    {
        self.0
    }
}

/// The numbers of a list of pieces.
pub open spec fn piece_numbers(pieces: Seq<ValidPieceIndex>) -> Seq<u32> {
    pieces.map_values(|p: ValidPieceIndex| p@)
}

/// The piece that holds a byte, and how many bytes of the piece follow from that byte on.
#[derive(Clone, Copy, Debug)]
pub struct CurrentPiece {
    pub id: ValidPieceIndex,
    pub piece_remaining: u32,
}

/// The length of a torrent and of its pieces. All pieces are equally long, except that
/// the last one may be shorter.
#[derive(Clone, Copy, Debug)]
pub struct Lengths {
    total_length: u64,
    piece_length: u32,
}

impl Lengths {
    /// The number of bytes in the torrent.
    pub closed spec fn total(self) -> int {
        self.total_length as int
    }

    /// The number of bytes in each piece but the last.
    pub closed spec fn piece(self) -> int {
        self.piece_length as int
    }

    /// The number of pieces.
    pub open spec fn count(self) -> int {
        div_up(self.total(), self.piece())
    }

    /// There is at least one byte, and the pieces can be numbered.
    pub open spec fn wf(self) -> bool {
        &&& 0 < self.total() <= u64::MAX
        &&& 0 < self.piece() <= u32::MAX
        &&& self.count() <= u32::MAX
    }

    #[verifier::type_invariant]
    spec fn inv(self) -> bool {
        self.wf()
    }

    /// The number of bytes in piece `id`.
    pub open spec fn len_of(self, id: int) -> int {
        if id == self.count() - 1 {
            self.total() - id * self.piece()
        } else {
            self.piece()
        }
    }

    /// The piece that holds byte `pos` of a file that starts at byte `offset` of the
    /// torrent, and how many bytes of the piece are left from there on. The end of a
    /// torrent whose last piece is short still belongs to that piece.
    pub open spec fn piece_at(self, pos: int, offset: int) -> Option<(int, int)> {
        let abs = offset + pos;
        let id = abs / self.piece();
        if abs <= self.total() && id < self.count() {
            Some((id, self.len_of(id) - abs % self.piece()))
        } else {
            None
        }
    }

    /// The geometry of a torrent with `total_length` bytes in pieces of `piece_length`
    /// bytes, unless one of them is zero or the pieces are too many for a `u32`.
    pub fn new(total_length: u64, piece_length: u32) -> (r: Option<Lengths>)
        ensures
            r is Some <==> total_length > 0 && piece_length > 0 && div_up(
                total_length as int,
                piece_length as int,
            ) <= u32::MAX,
            r matches Some(l) ==> l.wf() && l.total() == total_length && l.piece()
                == piece_length,
    {
        if total_length == 0 || piece_length == 0 {
            return None;
        }
        let n: u128 = (total_length as u128 + piece_length as u128 - 1) / piece_length as u128;
        if n > u32::MAX as u128 {
            return None;
        }
        Some(Lengths { total_length, piece_length })
    }

    /// The number of bytes in each piece but the last.
    pub fn default_piece_length(&self) -> (n: u32)
        ensures
            n == self.piece(),
            self.wf(),
    {
        proof {
            use_type_invariant(self);
        }
        self.piece_length
    }

    /// The number of bytes in the torrent.
    pub fn total_length(&self) -> (n: u64)
        ensures
            n == self.total(),
            self.wf(),
    {
        proof {
            use_type_invariant(self);
        }
        self.total_length
    }

    /// The number of pieces.
    pub fn total_pieces(&self) -> (n: u32)
        ensures
            n == self.count(),
            n > 0,
            self.wf(),
    {
        proof {
            use_type_invariant(self);
            lemma_count_positive(*self);
        }
        let n: u128 = (self.total_length as u128 + self.piece_length as u128 - 1)
            / self.piece_length as u128;
        n as u32
    }

    /// The piece with the number `index`, if the torrent has it.
    pub fn validate_piece_index(&self, index: u32) -> (r: Option<ValidPieceIndex>)
        ensures
            r is Some <==> index < self.count(),
            r matches Some(p) ==> p@ == index,
    {
        if index < self.total_pieces() {
            Some(ValidPieceIndex(index))
        } else {
            None
        }
    }

    /// The piece that holds byte `pos` of a file that starts at byte
    /// `file_torrent_abs_offset` of the torrent.
    pub fn compute_current_piece(&self, pos: u64, file_torrent_abs_offset: u64) -> (r: Option<
        CurrentPiece,
    >)
        ensures
            r is Some <==> self.piece_at(pos as int, file_torrent_abs_offset as int) is Some,
            r matches Some(c) ==> self.piece_at(pos as int, file_torrent_abs_offset as int)
                == Some((c.id@ as int, c.piece_remaining as int)),
    {
        proof {
            use_type_invariant(self);
        }
        let abs: u64 = match file_torrent_abs_offset.checked_add(pos) {
            Some(abs) => abs,
            None => {
                return None;
            },
        };
        if abs > self.total_length {
            return None;
        }
        let dpl: u64 = self.piece_length as u64;
        let count: u32 = self.total_pieces();
        let id: u64 = abs / dpl;
        if id >= count as u64 {
            return None;
        }
        let last: u64 = count as u64 - 1;
        proof {
            lemma_last_piece(*self);
            lemma_fundamental_div_mod(abs as int, dpl as int);
            lemma_mod_bound(abs as int, dpl as int);
            assert(dpl * (abs as int / dpl as int) == id * self.piece()) by (nonlinear_arith)
                requires
                    id == abs as int / dpl as int,
                    dpl == self.piece(),
            ;
            assert(last * dpl == (self.count() - 1) * self.piece());
        }
        let len: u64 = if id == last {
            self.total_length - last * dpl
        } else {
            dpl
        };
        let remaining: u64 = len - abs % dpl;
        Some(CurrentPiece { id: ValidPieceIndex(id as u32), piece_remaining: remaining as u32 })
    }
}

/// A torrent has at least one piece.
pub proof fn lemma_count_positive(l: Lengths)
    requires
        l.wf(),
    ensures
        l.count() > 0,
{
    lemma_div_is_ordered(l.piece(), l.total() + l.piece() - 1, l.piece());
    assert(l.piece() / l.piece() == 1) by (nonlinear_arith)
        requires
            l.piece() > 0,
    ;
}

/// The last piece holds at least one byte and no more than a full piece.
pub proof fn lemma_last_piece(l: Lengths)
    requires
        l.wf(),
    ensures
        (l.count() - 1) * l.piece() < l.total() <= l.count() * l.piece(),
        0 < l.len_of(l.count() - 1) <= l.piece(),
{
    let n = l.count();
    let p = l.piece();
    let x = l.total() + p - 1;
    lemma_fundamental_div_mod(x, p);
    lemma_mod_bound(x, p);
    assert(p * n == n * p) by (nonlinear_arith);
    assert((n - 1) * p == n * p - p) by (nonlinear_arith);
}

/// A byte of the torrent lies in exactly one piece: the quotient of its position by the
/// piece length is the number of a piece that exists.
pub proof fn lemma_byte_has_piece(l: Lengths, abs: int)
    requires
        l.wf(),
        0 <= abs < l.total(),
    ensures
        0 <= abs / l.piece() < l.count(),
        l.piece_at(abs, 0) matches Some((id, left)) && id == abs / l.piece() && 0 < left
            <= l.piece() && abs + left <= l.total(),
{
    let p = l.piece();
    let id = abs / p;
    lemma_last_piece(l);
    lemma_fundamental_div_mod(abs, p);
    lemma_mod_bound(abs, p);
    assert(p * id == id * p) by (nonlinear_arith);
    if id >= l.count() {
        assert(id * p >= l.count() * p) by (nonlinear_arith)
            requires
                id >= l.count(),
                p > 0,
        ;
    }
    assert(id >= 0) by (nonlinear_arith)
        requires
            id == abs / p,
            abs >= 0,
            p > 0,
    ;
    if id < l.count() - 1 {
        assert((id + 1) * p <= (l.count() - 1) * p) by (nonlinear_arith)
            requires
                id + 1 <= l.count() - 1,
                p > 0,
        ;
        assert((id + 1) * p == id * p + p) by (nonlinear_arith);
    }
}

/// The pieces cover the torrent, and the last of them is needed for it.
pub proof fn law_pieces_cover_torrent(l: Lengths)
    requires
        l.wf(),
    ensures
        l.count() > 0,
        (l.count() - 1) * l.piece() < l.total() <= l.count() * l.piece(),
{
    lemma_count_positive(l);
    lemma_last_piece(l);
}

/// A byte of a file is found in the piece that spans it, with as many bytes left as there
/// are up to the end of the piece or of the torrent, and in no other piece. The end of the
/// torrent still belongs to a last piece that is short.
pub proof fn law_byte_is_in_its_piece(l: Lengths, pos: int, offset: int, id: int, left: int)
    requires
        l.wf(),
        0 <= offset + pos,
    ensures
        l.piece_at(pos, offset) == Some((id, left)) <==> {
            &&& id * l.piece() <= offset + pos < (id + 1) * l.piece()
            &&& id * l.piece() < l.total()
            &&& offset + pos <= l.total()
            &&& offset + pos + left == if (id + 1) * l.piece() < l.total() {
                (id + 1) * l.piece()
            } else {
                l.total()
            }
        },
{
    let abs = offset + pos;
    let p = l.piece();
    let n = l.count();
    let at = abs / p;
    lemma_last_piece(l);
    lemma_fundamental_div_mod(abs, p);
    lemma_mod_bound(abs, p);
    assert(p * at == at * p) by (nonlinear_arith);
    assert((id + 1) * p == id * p + p) by (nonlinear_arith);
    assert((at + 1) * p == at * p + p) by (nonlinear_arith);
    lemma_scaled_order(id, at, p);
    lemma_scaled_order(at, id, p);
    lemma_scaled_order(id, n, p);
    lemma_scaled_order(n, id, p);
    lemma_scaled_order(at, n, p);
    lemma_scaled_order(n, at, p);
    lemma_scaled_order(at + 1, n, p);
    lemma_scaled_order(at + 1, n - 1, p);
    lemma_scaled_order(n, at + 1, p);
}

/// Multiples of a positive number are ordered as their factors.
pub proof fn lemma_scaled_order(a: int, b: int, p: int)
    requires
        p > 0,
    ensures
        a < b ==> a * p + p <= b * p,
        a == b ==> a * p == b * p,
        a > b ==> a * p >= b * p + p,
{
    if a < b {
        assert((a + 1) * p <= b * p) by (nonlinear_arith)
            requires
                a + 1 <= b,
                p > 0,
        ;
        assert((a + 1) * p == a * p + p) by (nonlinear_arith);
    }
    if a > b {
        assert((b + 1) * p <= a * p) by (nonlinear_arith)
            requires
                b + 1 <= a,
                p > 0,
        ;
        assert((b + 1) * p == b * p + p) by (nonlinear_arith);
    }
}

/// The numbers of pieces are theirs, one by one.
pub proof fn law_numbers_one_by_one(pieces: Seq<ValidPieceIndex>, k: int)
    ensures
        piece_numbers(pieces).len() == pieces.len(),
        0 <= k < pieces.len() ==> piece_numbers(pieces)[k] == pieces[k]@,
{
}

} // verus!
