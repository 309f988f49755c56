//! `CoordCube<N, D, R>`: a `CoordPath<N>` read as a point of a
//! `D`-dimensional grid with `R` syllables per dimension (`N == D * R`).
use vstd::prelude::*;
use crate::coord::Coord;
use crate::coord_path::{CoordPath, joined, syllables};
use crate::text::{push_str_seq, push_decimal, spec_decimal};

verus! {

/// A `CoordPath<N>` seen as `D` groups of `R` consecutive syllables, one
/// group per dimension.
#[derive(Clone, Copy, Debug)]
pub struct CoordCube<const N: usize, const D: usize, const R: usize> {
    path: CoordPath<N>,
}

impl<const N: usize, const D: usize, const R: usize> View for CoordCube<N, D, R> {
    type V = Seq<Coord>;

    closed spec fn view(&self) -> Seq<Coord> {
        self.path@
    }
}

/// The `r` syllables of dimension `dim` in the syllable sequence `s`.
pub open spec fn cube_axis(s: Seq<Coord>, r: int, dim: int) -> Seq<Coord> {
    s.subrange(dim * r, dim * r + r)
}

/// The text of the first `d` dimensions: each as `(c, c, ...)`, separated
/// by `" | "`.
pub open spec fn dims_text(s: Seq<Coord>, r: int, d: nat) -> Seq<char>
    decreases d,
{
    if d == 0 {
        Seq::empty()
    } else if d == 1 {
        "("@ + joined(syllables(cube_axis(s, r, 0))) + ")"@
    } else {
        dims_text(s, r, (d - 1) as nat) + " | ("@ + joined(syllables(cube_axis(s, r, d - 1))) + ")"@
    }
}

/// The display text `CoordCube<N, D, R>[(..) | (..)]`.
pub open spec fn cube_text(n: nat, d: nat, r: nat, s: Seq<Coord>) -> Seq<char> {
    "CoordCube<"@ + spec_decimal(n) + ", "@ + spec_decimal(d) + ", "@ + spec_decimal(r) + ">["@
        + dims_text(s, r as int, d) + "]"@
}

/// Offsets inside dimension `dim` lie inside the path.
proof fn lemma_axis_offset(dim: int, i: int, d: int, r: int)
    requires
        0 <= dim < d,
        0 <= i < r,
    ensures
        0 <= dim * r,
        dim * r + i < d * r,
        dim * r + r <= d * r,
{
    assert(0 <= dim * r) by (nonlinear_arith)
        requires
            0 <= dim,
            0 <= r,
    ;
    assert(dim * r + r <= d * r) by (nonlinear_arith)
        requires
            dim + 1 <= d,
            0 <= r,
    ;
}

impl<const N: usize, const D: usize, const R: usize> CoordCube<N, D, R> {
    /// The shape is consistent: `N == D * R`.
    pub open spec fn wf(&self) -> bool {
        D * R == N
    }

    /// Reads `path` as a cube; `N` must equal `D * R`.
    pub fn from_path(path: CoordPath<N>) -> (r: Self)
        requires
            D * R == N,
        ensures
            r.wf(),
            r@ == path@,
    {
        CoordCube { path }
    }

    /// The underlying path.
    pub fn as_path(&self) -> (r: &CoordPath<N>)
        ensures
            r@ == self@,
    {
        &self.path
    }

    /// Gives back the underlying path.
    pub fn into_path(self) -> (r: CoordPath<N>)
        ensures
            r@ == self@,
    {
        self.path
    }

    /// The number of dimensions, `D`.
    pub fn ndim(&self) -> (r: usize)
        ensures
            r == D,
    {
        D
    }

    /// The number of syllables per dimension, `R`.
    pub fn resolution(&self) -> (r: usize)
        ensures
            r == R,
    {
        R
    }

    /// The total number of syllables, `N`.
    pub fn total_syllables(&self) -> (r: usize)
        ensures
            r == N,
    {
        N
    }

    /// The `R` syllables of dimension `dim`.
    pub fn axis(&self, dim: usize) -> (r: CoordPath<R>)
        requires
            self.wf(),
            dim < D,
        ensures
            r@ == cube_axis(self@, R as int, dim as int),
    {
        proof {
            if R > 0 {
                lemma_axis_offset(dim as int, 0, D as int, R as int);
            }
        }
        let start = dim * R;
        let zero = crate::coord_gen::coord_of(0);
        let mut coords: [Coord; R] = [zero; R];
        let mut i: usize = 0;
        while i < R
            invariant
                i <= R,
                coords@.len() == R,
                self@.len() == N,
                start == dim * R,
                dim < D,
                D * R == N,
                forall|j: int| 0 <= j < i ==> #[trigger] coords@[j] == self@[start + j],
            decreases R - i,
        {
            proof {
                lemma_axis_offset(dim as int, i as int, D as int, R as int);
            }
            coords[i] = self.path.coords[start + i];
            i = i + 1;
        }
        let r = CoordPath::new(coords);
        proof {
            if R > 0 {
                lemma_axis_offset(dim as int, 0, D as int, R as int);
            }
            assert(r@ =~= cube_axis(self@, R as int, dim as int));
        }
        r
    }

    /// The coordinate at syllable `syllable` of dimension `dim`.
    pub fn coord_at(&self, dim: usize, syllable: usize) -> (r: Coord)
        requires
            self.wf(),
            dim < D,
            syllable < R,
        ensures
            r == self@[dim * R + syllable],
    {
        proof {
            lemma_axis_offset(dim as int, syllable as int, D as int, R as int);
        }
        self.path.coords[dim * R + syllable]
    }

    /// All `N` coordinates.
    pub fn coords(&self) -> (r: &[Coord; N])
        ensures
            r@ == self@,
    {
        self.path.coords()
    }

    /// The display text `CoordCube<N, D, R>[(c, ..) | (c, ..)]`, each
    /// coordinate shown as its syllable.
    pub fn to_string(&self) -> (r: String)
        requires
            self.wf(),
        ensures
            r@ == cube_text(N as nat, D as nat, R as nat, self@),
    {
        let mut out = String::new();
        push_str_seq(&mut out, "CoordCube<");
        push_decimal(&mut out, N);
        push_str_seq(&mut out, ", ");
        push_decimal(&mut out, D);
        push_str_seq(&mut out, ", ");
        push_decimal(&mut out, R);
        push_str_seq(&mut out, ">[");
        let ghost head = out@;
        let mut dim: usize = 0;
        while dim < D
            invariant
                dim <= D,
                D * R == N,
                self@.len() == N,
                out@ == head + dims_text(self@, R as int, dim as nat),
            decreases D - dim,
        {
            if dim > 0 {
                push_str_seq(&mut out, " | ");
            }
            push_str_seq(&mut out, "(");
            let axis = self.axis(dim);
            let chars = crate::coord_path::coord_chars(&axis_vec(&axis));
            crate::coord_path::push_joined(&mut out, &chars);
            push_str_seq(&mut out, ")");
            proof {
                reveal_strlit(" | ");
                reveal_strlit("(");
                reveal_strlit(")");
                if dim == 0 {
                    assert(dims_text(self@, R as int, 0) == Seq::<char>::empty());
                    assert(out@ == head + dims_text(self@, R as int, 1));
                } else {
                    reveal_strlit(" | (");
                    assert(out@ =~= head + dims_text(self@, R as int, (dim + 1) as nat));
                }
            }
            dim = dim + 1;
        }
        push_str_seq(&mut out, "]");
        proof {
            reveal_strlit("CoordCube<");
            reveal_strlit(", ");
            reveal_strlit(">[");
            reveal_strlit("]");
        }
        out
    }
}

/// The coordinates of a path, as a vector.
fn axis_vec<const R: usize>(p: &CoordPath<R>) -> (r: Vec<Coord>)
    ensures
        r@ == p@,
{
    let mut v: Vec<Coord> = Vec::new();
    let mut i: usize = 0;
    while i < R
        invariant
            i <= R,
            p@.len() == R,
            v@ == p@.take(i as int),
        decreases R - i,
    {
        v.push(p.coords()[i]);
        proof {
            assert(p@.take(i + 1) == p@.take(i as int).push(p@[i as int]));
        }
        i = i + 1;
    }
    proof {
        assert(p@.take(R as int) == p@);
    }
    v
}

impl<const N: usize, const D: usize, const R: usize> PartialEq for CoordCube<N, D, R> {
    fn eq(&self, other: &Self) -> (r: bool) {
        self.path == other.path
    }
}

impl<const N: usize, const D: usize, const R: usize> vstd::std_specs::cmp::PartialEqSpecImpl for CoordCube<N, D, R> {
    open spec fn obeys_eq_spec() -> bool {
        true
    }

    open spec fn eq_spec(&self, other: &Self) -> bool {
        self@ == other@
    }
}

impl<const N: usize, const D: usize, const R: usize> Eq for CoordCube<N, D, R> {
}

impl<const N: usize, const D: usize, const R: usize> From<CoordPath<N>> for CoordCube<N, D, R> {
    /// Reads `path` as a cube. A shape with `D * R != N` gives a cube that
    /// is not well formed, which the operations on cubes refuse.
    fn from(path: CoordPath<N>) -> (r: CoordCube<N, D, R>)
        ensures
            r@ == path@,
    {
        CoordCube { path }
    }
}

impl<const N: usize, const D: usize, const R: usize> vstd::std_specs::convert::FromSpecImpl<CoordPath<N>> for CoordCube<N, D, R> {
    open spec fn obeys_from_spec() -> bool {
        true
    }

    closed spec fn from_spec(path: CoordPath<N>) -> CoordCube<N, D, R> {
        CoordCube { path }
    }
}

impl<const N: usize, const D: usize, const R: usize> From<CoordCube<N, D, R>> for CoordPath<N> {
    fn from(cube: CoordCube<N, D, R>) -> (r: CoordPath<N>) {
        cube.path
    }
}

impl<const N: usize, const D: usize, const R: usize> vstd::std_specs::convert::FromSpecImpl<CoordCube<N, D, R>> for CoordPath<N> {
    open spec fn obeys_from_spec() -> bool {
        true
    }

    closed spec fn from_spec(cube: CoordCube<N, D, R>) -> CoordPath<N> {
        cube.path
    }
}

} // verus!
