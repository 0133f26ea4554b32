//! Tables of the mesh as text.
use vstd::prelude::*;
use vstd::string::StringExecFns;

use crate::mesh::{HalfEdge, Mesh};
use crate::traverse::face_origins;

verus! {

/// The character of decimal digit `d`.
pub open spec fn digit_char(d: nat) -> char {
    (48 + d) as char
}

/// The decimal digits of `n`, most significant first, without leading zeros.
pub open spec fn decimal(n: nat) -> Seq<char>
    decreases n,
{
    if n < 10 {
        seq![digit_char(n)]
    } else {
        decimal(n / 10).push(digit_char(n % 10))
    }
}

/// An optional id as text: its digits, or `-` when absent.
pub open spec fn id_text(id: Option<u32>) -> Seq<char> {
    match id {
        Some(n) => decimal(n as nat),
        None => seq!['-'],
    }
}

pub open spec fn tab() -> Seq<char> {
    seq!['\t']
}

pub open spec fn newline() -> Seq<char> {
    seq!['\n']
}

/// The row [`HalfEdge::pretty_data`] writes: origin counted from one, twin,
/// face, next and prev, separated by tabs.
pub open spec fn edge_row(h: HalfEdge) -> Seq<char> {
    decimal((h.origin + 1) as nat) + tab() + id_text(h.twin) + tab() + id_text(h.face) + tab()
        + decimal(h.next as nat) + tab() + decimal(h.prev as nat)
}

fn digit_str(d: usize) -> (r: &'static str)
    requires
        d < 10,
    ensures
        r@ == seq![digit_char(d as nat)],
{
    proof {
        reveal_strlit("0");
        reveal_strlit("1");
        reveal_strlit("2");
        reveal_strlit("3");
        reveal_strlit("4");
        reveal_strlit("5");
        reveal_strlit("6");
        reveal_strlit("7");
        reveal_strlit("8");
        reveal_strlit("9");
    }
    match d {
        0 => "0",
        1 => "1",
        2 => "2",
        3 => "3",
        4 => "4",
        5 => "5",
        6 => "6",
        7 => "7",
        8 => "8",
        _ => "9",
    }
}

/// Appends the decimal digits of `n`.
fn push_decimal(s: &mut String, n: usize)
    ensures
        final(s)@ == old(s)@ + decimal(n as nat),
    decreases n,
{
    if n < 10 {
        s.append(digit_str(n));
    } else {
        push_decimal(s, n / 10);
        s.append(digit_str(n % 10));
        proof {
            assert(old(s)@ + decimal((n / 10) as nat) + seq![digit_char((n % 10) as nat)] =~= old(s)@
                + decimal(n as nat));
        }
    }
}

fn push_str(s: &mut String, t: &str)
    ensures
        final(s)@ == old(s)@ + t@,
{
    s.append(t);
}

/// An optional id as text: its digits, or `-` when absent.
pub fn op_id2string(op_num: Option<u32>) -> (r: String)
    ensures
        r@ == id_text(op_num),
{
    let mut s = String::new();
    match op_num {
        Some(num) => {
            push_decimal(&mut s, num as usize);
            proof {
                assert(s@ =~= decimal(num as nat));
            }
        },
        None => {
            proof {
                reveal_strlit("-");
            }
            push_str(&mut s, "-");
            proof {
                assert(s@ =~= seq!['-']);
            }
        },
    }
    s
}

impl HalfEdge {
    pub fn pretty_header() -> (r: &'static str)
        ensures
            r@ == "origin\ttwin\tface\tnext\tprev"@,
    {
        "origin\ttwin\tface\tnext\tprev"
    }

    /// The fields as one tab separated row, with the origin counted from one.
    pub fn pretty_data(&self) -> (r: String)
        requires
            self.origin < u32::MAX,
        ensures
            r@ == edge_row(*self),
    {
        proof {
            reveal_strlit("\t");
        }
        let mut s = String::new();
        push_decimal(&mut s, (self.origin + 1) as usize);
        push_str(&mut s, "\t");
        let twin = op_id2string(self.twin);
        push_str(&mut s, twin.as_str());
        push_str(&mut s, "\t");
        let face = op_id2string(self.face);
        push_str(&mut s, face.as_str());
        push_str(&mut s, "\t");
        push_decimal(&mut s, self.next as usize);
        push_str(&mut s, "\t");
        push_decimal(&mut s, self.prev as usize);
        proof {
            assert(s@ =~= edge_row(*self));
        }
        s
    }
}


/// The rows of [`Mesh::pretty_edges`] for the first `u` half edges.
pub open spec fn edge_lines(es: Seq<HalfEdge>, u: int) -> Seq<char>
    decreases u,
{
    if u <= 0 {
        Seq::empty()
    } else {
        edge_lines(es, u - 1) + decimal((u - 1) as nat) + tab() + edge_row(es[u - 1]) + newline()
    }
}

/// The rows of [`Mesh::pretty_faces`] for the first `u` faces.
pub open spec fn face_lines(faces: Seq<u32>, u: int) -> Seq<char>
    decreases u,
{
    if u <= 0 {
        Seq::empty()
    } else {
        face_lines(faces, u - 1) + decimal((u - 1) as nat) + tab() + decimal(faces[u - 1] as nat)
            + newline()
    }
}

/// Each id of `ids` after a space.
pub open spec fn spaced_ids(ids: Seq<u32>) -> Seq<char>
    decreases ids.len(),
{
    if ids.len() == 0 {
        Seq::empty()
    } else {
        spaced_ids(ids.drop_last()) + seq![' '] + decimal(ids.last() as nat)
    }
}

/// The rows of [`Mesh::pretty_face_vecs`] for the first `u` faces.
pub open spec fn face_vec_lines(es: Seq<HalfEdge>, faces: Seq<u32>, u: int) -> Seq<char>
    decreases u,
{
    if u <= 0 {
        Seq::empty()
    } else {
        face_vec_lines(es, faces, u - 1) + seq!['f'] + decimal((u - 1) as nat) + seq![':']
            + spaced_ids(face_origins(es, faces[u - 1] as int)) + newline()
    }
}

impl<P> Mesh<P> {
    /// The half edges as a table: a header, then one row per half edge.
    pub fn pretty_edges(&self) -> (r: String)
        requires
            forall|e: int|
                0 <= e < self.half_edges@.len() ==> #[trigger] self.half_edges@[e].origin < u32::MAX,
        ensures
            r@ == "id\t"@ + "origin\ttwin\tface\tnext\tprev"@ + newline() + edge_lines(
                self.half_edges@,
                self.half_edges@.len() as int,
            ),
    {
        proof {
            reveal_strlit("\t");
            reveal_strlit("\n");
        }
        let mut s = String::new();
        push_str(&mut s, "id\t");
        push_str(&mut s, HalfEdge::pretty_header());
        push_str(&mut s, "\n");
        let ghost head = s@;
        let n = self.half_edges.len();
        for i in 0..n
            invariant
                n == self.half_edges@.len(),
                forall|e: int| 0 <= e < n ==> #[trigger] self.half_edges@[e].origin < u32::MAX,
                s@ == head + edge_lines(self.half_edges@, i as int),
        {
            let ghost before = s@;
            push_decimal(&mut s, i);
            push_str(&mut s, "\t");
            let row = self.half_edges[i].pretty_data();
            push_str(&mut s, row.as_str());
            push_str(&mut s, "\n");
            proof {
                reveal_strlit("\t");
                reveal_strlit("\n");
                let line = decimal(i as nat) + tab() + edge_row(self.half_edges@[i as int]) + newline();
                assert(s@ =~= before + line);
                assert(edge_lines(self.half_edges@, i + 1) == edge_lines(self.half_edges@, i as int)
                    + line);
                assert(head + edge_lines(self.half_edges@, i + 1) =~= before + line);
            }
        }
        proof {
            assert(head =~= "id\t"@ + "origin\ttwin\tface\tnext\tprev"@ + newline());
        }
        s
    }

    /// The faces as a table: a header, then each face with its half edge.
    pub fn pretty_faces(&self) -> (r: String)
        ensures
            r@ == "id\tedge"@ + newline() + face_lines(self.faces@, self.faces@.len() as int),
    {
        proof {
            reveal_strlit("\t");
            reveal_strlit("\n");
        }
        let mut s = String::new();
        push_str(&mut s, "id\tedge");
        push_str(&mut s, "\n");
        let ghost head = s@;
        let n = self.faces.len();
        for i in 0..n
            invariant
                n == self.faces@.len(),
                s@ == head + face_lines(self.faces@, i as int),
        {
            let ghost before = s@;
            push_decimal(&mut s, i);
            push_str(&mut s, "\t");
            push_decimal(&mut s, self.faces[i] as usize);
            push_str(&mut s, "\n");
            proof {
                reveal_strlit("\t");
                reveal_strlit("\n");
                let line = decimal(i as nat) + tab() + decimal(self.faces@[i as int] as nat) + newline();
                assert(s@ =~= before + line);
                assert(face_lines(self.faces@, i + 1) == face_lines(self.faces@, i as int) + line);
                assert(head + face_lines(self.faces@, i + 1) =~= before + line);
            }
        }
        proof {
            assert(head =~= "id\tedge"@ + newline());
        }
        s
    }

    /// One row per face, `f<face>:` then the vertices around it.
    pub fn pretty_face_vecs(&self) -> (r: String)
        requires
            self.indices_valid(),
            self.faces_close(),
        ensures
            r@ == face_vec_lines(self.half_edges@, self.faces@, self.faces@.len() as int),
    {
        proof {
            reveal_strlit("\n");
            reveal_strlit("f");
            reveal_strlit(":");
            reveal_strlit(" ");
        }
        let inds = self.face_inds();
        let mut s = String::new();
        let n = inds.len();
        for face_i in 0..n
            invariant
                n == inds@.len(),
                n == self.faces@.len(),
                forall|f: int|
                    0 <= f < n ==> #[trigger] inds@[f]@ == face_origins(
                        self.half_edges@,
                        self.faces@[f] as int,
                    ),
                s@ == face_vec_lines(self.half_edges@, self.faces@, face_i as int),
        {
            let ghost before = s@;
            push_str(&mut s, "f");
            push_decimal(&mut s, face_i);
            push_str(&mut s, ":");
            let face = &inds[face_i];
            let ghost start = s@;
            let m = face.len();
            for j in 0..m
                invariant
                    m == face@.len(),
                    s@ == start + spaced_ids(face@.take(j as int)),
            {
                let ghost b2 = s@;
                push_str(&mut s, " ");
                push_decimal(&mut s, face[j] as usize);
                proof {
                    reveal_strlit(" ");
                    let piece = seq![' '] + decimal(face@[j as int] as nat);
                    assert(s@ =~= b2 + piece);
                    assert(face@.take(j + 1).drop_last() =~= face@.take(j as int));
                    assert(face@.take(j + 1).last() == face@[j as int]);
                    assert(spaced_ids(face@.take(j + 1)) == spaced_ids(face@.take(j as int)) + piece);
                    assert(start + spaced_ids(face@.take(j + 1)) =~= b2 + piece);
                }
            }
            let ghost b3 = s@;
            push_str(&mut s, "\n");
            proof {
                reveal_strlit("\n");
                reveal_strlit("f");
                reveal_strlit(":");
                assert(face@.take(m as int) =~= face@);
                assert(s@ =~= b3 + newline());
                let ids = face_origins(self.half_edges@, self.faces@[face_i as int] as int);
                let line = seq!['f'] + decimal(face_i as nat) + seq![':'] + spaced_ids(ids) + newline();
                assert(start =~= before + seq!['f'] + decimal(face_i as nat) + seq![':']);
                assert(face_vec_lines(self.half_edges@, self.faces@, face_i + 1) == face_vec_lines(
                    self.half_edges@,
                    self.faces@,
                    face_i as int,
                ) + line);
                assert(s@ =~= before + line);
            }
        }
        s
    }
}

} // verus!
