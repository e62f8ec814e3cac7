use crate::hash_table::VertexId;
use vstd::prelude::*;

verus! {

/// A byte that separates words.
pub open spec fn is_blank(b: u8) -> bool {
    b == 32 || b == 9 || b == 13 || b == 10
}

pub open spec fn is_digit(b: u8) -> bool {
    48 <= b <= 57
}

/// Value of a string of decimal digits.
pub open spec fn decimal(s: Seq<u8>) -> nat
    decreases s.len(),
{
    if s.len() == 0 {
        0
    } else {
        decimal(s.drop_last()) * 10 + (s.last() - 48) as nat
    }
}

/// The maximal runs of non-blank bytes of `s`, in order.
pub open spec fn words(s: Seq<u8>) -> Seq<Seq<u8>>
    decreases s.len(),
{
    if s.len() == 0 {
        Seq::empty()
    } else if is_blank(s.last()) {
        words(s.drop_last())
    } else if s.len() >= 2 && !is_blank(s[s.len() - 2]) {
        let w = words(s.drop_last());
        w.update(w.len() - 1, w.last().push(s.last()))
    } else {
        words(s.drop_last()).push(seq![s.last()])
    }
}

/// A word that names a vertex: decimal digits of a value that fits in a `u32`.
pub open spec fn is_number(w: Seq<u8>) -> bool {
    &&& w.len() > 0
    &&& forall|k: int| 0 <= k < w.len() ==> is_digit(#[trigger] w[k])
    &&& decimal(w) <= u32::MAX
}

/// Every word is a number.
pub open spec fn all_numbers(ws: Seq<Seq<u8>>) -> bool {
    forall|k: int| 0 <= k < ws.len() ==> is_number(#[trigger] ws[k])
}

/// A comment line starts with `%`.
pub open spec fn is_comment(line: Seq<u8>) -> bool {
    line.len() > 0 && line[0] == 37
}

/// Why a graph file could not be read.
pub enum MetisError {
    /// A word is not a number that fits in a `u32`.
    InvalidNumber,
    /// More vertex lines than vertex ids.
    TooManyVertices,
}

/// Words are never empty.
proof fn lemma_words_nonempty(s: Seq<u8>)
    ensures
        forall|w: Seq<u8>| #[trigger] words(s).contains(w) ==> w.len() > 0,
        s.len() > 0 && !is_blank(s.last()) ==> words(s).len() > 0,
    decreases s.len(),
{
    if s.len() > 0 {
        lemma_words_nonempty(s.drop_last());
        if s.len() >= 2 {
            assert(s.drop_last().last() == s[s.len() - 2]);
        }
        let ws0 = words(s.drop_last());
        let ws1 = words(s);
        assert forall|w: Seq<u8>| #[trigger] ws1.contains(w) implies w.len() > 0 by {
            let k = choose|k: int| 0 <= k < ws1.len() && ws1[k] == w;
            if !is_blank(s.last()) && s.len() >= 2 && !is_blank(s[s.len() - 2]) {
                assert(ws1 == ws0.update(ws0.len() - 1, ws0.last().push(s.last())));
                if k < ws0.len() - 1 {
                    assert(ws1[k] == ws0[k]);
                    assert(ws0.contains(ws0[k]));
                } else {
                    assert(ws1[k] == ws0.last().push(s.last()));
                }
            } else if !is_blank(s.last()) {
                assert(ws1 == ws0.push(seq![s.last()]));
                if k < ws0.len() {
                    assert(ws1[k] == ws0[k]);
                    assert(ws0.contains(ws0[k]));
                } else {
                    assert(ws1[k] == seq![s.last()]);
                }
            } else {
                assert(ws0.contains(ws0[k]));
            }
        }
    }
}

proof fn lemma_decimal_push(w: Seq<u8>, b: u8)
    ensures
        decimal(w.push(b)) == decimal(w) * 10 + (b - 48) as nat,
{
    assert(w.push(b).drop_last() =~= w);
}

proof fn lemma_decimal_grows(w: Seq<u8>, b: u8)
    requires
        is_digit(b),
    ensures
        decimal(w.push(b)) >= decimal(w),
{
    lemma_decimal_push(w, b);
}

/// A number stays a number when a digit is appended and the value still fits.
proof fn lemma_number_extend(w: Seq<u8>, b: u8)
    requires
        w.len() > 0,
    ensures
        is_number(w.push(b)) <==> (is_number(w) && is_digit(b) && decimal(w) * 10 + (b - 48) <= u32::MAX),
{
    lemma_decimal_push(w, b);
    let x = w.push(b);
    assert(x[w.len() as int] == b);
    if is_number(x) {
        assert forall|k: int| 0 <= k < w.len() implies is_digit(#[trigger] w[k]) by {
            assert(x[k] == w[k]);
        }
        assert(is_digit(b));
    }
    if is_number(w) && is_digit(b) && decimal(w) * 10 + (b - 48) <= u32::MAX {
        assert forall|k: int| 0 <= k < x.len() implies is_digit(#[trigger] x[k]) by {
            if k < w.len() {
                assert(x[k] == w[k]);
            }
        }
    }
}

/// The words of a line and their values.
pub fn split_numbers(line: &[u8]) -> (r: Option<Vec<u32>>)
    ensures
        match r {
            Some(v) => all_numbers(words(line@)) && v@.len() == words(line@).len() && forall|k: int|
                0 <= k < v@.len() ==> #[trigger] v@[k] as nat == decimal(words(line@)[k]),
            None => !all_numbers(words(line@)),
        },
{
    let mut values: Vec<u32> = Vec::new();
    let mut bad = false;
    let mut in_word = false;
    let mut word_ok = false;
    let mut value: u64 = 0;
    let mut i: usize = 0;
    while i < line.len()
        invariant
            i <= line@.len(),
            ({
                let ws = words(line@.subrange(0, i as int));
                &&& in_word <==> (i > 0 && !is_blank(line@[i - 1]))
                &&& in_word ==> ws.len() > 0
                &&& bad <==> !all_numbers(if in_word { ws.drop_last() } else { ws })
                &&& !bad ==> values@.len() == (if in_word { ws.len() - 1 } else { ws.len() as int })
                &&& !bad ==> forall|k: int| 0 <= k < values@.len() ==> #[trigger] values@[k] as nat == decimal(ws[k])
                &&& in_word ==> (word_ok <==> is_number(ws.last()))
                &&& in_word && word_ok ==> value == decimal(ws.last())
            }),
        decreases line@.len() - i,
    {
        let b = line[i];
        let ghost before = line@.subrange(0, i as int);
        let ghost after = line@.subrange(0, i + 1 as int);
        let ghost was_in_word = in_word;
        let ghost was_ok = word_ok;
        let ghost old_value = value;
        let ghost old_values = values@;
        proof {
            assert(after.drop_last() =~= before);
            assert(after.last() == b);
            if i > 0 {
                assert(after[after.len() - 2] == line@[i - 1]);
            }
        }
        let blank = b == 32 || b == 9 || b == 13 || b == 10;
        let digit = 48 <= b && b <= 57;
        if blank {
            if in_word {
                if word_ok && !bad {
                    values.push(value as u32);
                } else {
                    bad = true;
                }
                in_word = false;
            }
        } else {
            if in_word {
                if word_ok {
                    if digit {
                        let next = value * 10 + (b - 48) as u64;
                        if next <= u32::MAX as u64 {
                            value = next;
                        } else {
                            word_ok = false;
                        }
                    } else {
                        word_ok = false;
                    }
                }
            } else {
                in_word = true;
                word_ok = digit;
                value = if digit {
                    (b - 48) as u64
                } else {
                    0
                };
            }
        }
        proof {
            let ws0 = words(before);
            let ws1 = words(after);
            if blank {
                assert(ws1 == ws0);
                if was_in_word {
                    assert(ws0 =~= ws0.drop_last().push(ws0.last()));
                    assert(all_numbers(ws0) <==> (all_numbers(ws0.drop_last()) && is_number(ws0.last()))) by {
                        if all_numbers(ws0.drop_last()) && is_number(ws0.last()) {
                            assert forall|k: int| 0 <= k < ws0.len() implies is_number(#[trigger] ws0[k]) by {
                                if k < ws0.len() - 1 {
                                    assert(ws0[k] == ws0.drop_last()[k]);
                                }
                            }
                        }
                        if all_numbers(ws0) {
                            assert forall|k: int| 0 <= k < ws0.len() - 1 implies is_number(#[trigger] ws0.drop_last()[k]) by {
                                assert(ws0[k] == ws0.drop_last()[k]);
                            }
                            assert(is_number(ws0[ws0.len() - 1]));
                        }
                    }
                }
            } else if was_in_word {
                let w = ws0.last();
                assert(ws1 == ws0.update(ws0.len() - 1, w.push(b)));
                assert(ws1.drop_last() =~= ws0.drop_last());
                assert(ws1.last() == w.push(b));
                assert(w.len() > 0) by {
                    lemma_words_nonempty(before);
                    assert(ws0.contains(w));
                }
                lemma_number_extend(w, b);
                lemma_decimal_push(w, b);
                if !was_ok && is_digit(b) && w.len() > 0 && (forall|k: int| 0 <= k < w.len() ==> is_digit(#[trigger] w[k])) {
                    lemma_decimal_grows(w, b);
                }
            } else {
                assert(ws1 == ws0.push(seq![b]));
                assert(ws1.drop_last() =~= ws0);
                assert(seq![b].drop_last() =~= Seq::<u8>::empty());
                lemma_decimal_push(Seq::<u8>::empty(), b);
                assert(seq![b] =~= Seq::<u8>::empty().push(b));
                assert(is_number(seq![b]) <==> is_digit(b)) by {
                    if is_digit(b) {
                        assert forall|k: int| 0 <= k < 1 implies is_digit(#[trigger] seq![b][k]) by {}
                    } else {
                        assert(!is_digit(seq![b][0]));
                    }
                }
            }
        }
        i = i + 1;
    }
    let ghost ws = words(line@.subrange(0, i as int));
    proof {
        assert(line@.subrange(0, i as int) =~= line@);
    }
    if in_word {
        if word_ok && !bad {
            values.push(value as u32);
        } else {
            bad = true;
        }
    }
    proof {
        if in_word {
            assert(ws =~= ws.drop_last().push(ws.last()));
            assert forall|k: int| 0 <= k < ws.len() - 1 implies #[trigger] ws[k] == ws.drop_last()[k] by {}
        }
    }
    if bad {
        None
    } else {
        Some(values)
    }
}

/// The edges that a vertex line gives vertex `idx`, one per word.
pub open spec fn line_edges(idx: VertexId, ws: Seq<Seq<u8>>) -> Seq<(VertexId, VertexId)> {
    Seq::new(ws.len(), |k: int| (idx, decimal(ws[k]) as VertexId))
}

/// What reading the first `k` lines gives: whether the header was seen, the
/// vertex lines so far with the edges they name, and the counts the header
/// announced; `None` once a line is malformed.
pub open spec fn read(lines: Seq<Seq<u8>>, k: nat) -> Option<(bool, Seq<VertexId>, Seq<(VertexId, VertexId)>, nat, nat)>
    decreases k,
{
    if k == 0 {
        Some((false, Seq::empty(), Seq::empty(), 0, 0))
    } else {
        match read(lines, (k - 1) as nat) {
            None => None,
            Some((seen, vs, es, nv, ne)) => {
                let line = lines[k - 1];
                let ws = words(line);
                if is_comment(line) {
                    Some((seen, vs, es, nv, ne))
                } else if !all_numbers(ws) {
                    None
                } else if !seen {
                    if ws.len() >= 2 {
                        Some((true, vs, es, decimal(ws[0]), decimal(ws[1])))
                    } else {
                        Some((true, vs, es, nv, ne))
                    }
                } else if vs.len() + 1 >= u32::MAX {
                    None
                } else {
                    let idx = (vs.len() + 1) as VertexId;
                    Some((true, vs.push(idx), es + line_edges(idx, ws), nv, ne))
                }
            },
        }
    }
}

/// Once a line is malformed, the rest of the file does not matter.
proof fn lemma_read_none(lines: Seq<Seq<u8>>, k: nat, j: nat)
    requires
        read(lines, k) is None,
        k <= j,
    ensures
        read(lines, j) is None,
    decreases j - k,
{
    if k < j {
        lemma_read_none(lines, k, (j - 1) as nat);
    }
}

/// A graph file in the format of the PACE challenge: a header with the
/// vertex and the edge count, then one line per vertex, numbered from 1,
/// with the targets of its edges; lines starting with `%` are comments.
pub struct Metis {
    filename: String,
    vertices: Vec<VertexId>,
    edges: Vec<(VertexId, VertexId)>,
    expected_edge_count: usize,
    expected_vertex_count: usize,
}

impl Metis {
    /// A reader for the file `file`; nothing is read yet.
    pub fn new(file: &str) -> (r: Self)
        ensures
            r.vertices_view() == Seq::<VertexId>::empty(),
            r.edges_view() == Seq::<(VertexId, VertexId)>::empty(),
            r.counts() == (0nat, 0nat),
    {
        Self {
            filename: file.to_owned(),
            vertices: Vec::new(),
            edges: Vec::new(),
            expected_edge_count: 0,
            expected_vertex_count: 0,
        }
    }

    pub closed spec fn vertices_view(&self) -> Seq<VertexId> {
        self.vertices@
    }

    pub closed spec fn edges_view(&self) -> Seq<(VertexId, VertexId)> {
        self.edges@
    }

    pub closed spec fn counts(&self) -> (nat, nat) {
        (self.expected_vertex_count as nat, self.expected_edge_count as nat)
    }

    /// The file to read.
    pub fn filename(&self) -> &str {
        self.filename.as_str()
    }

    /// Vertex ids read so far.
    pub fn vertices(&self) -> (r: &[VertexId])
        ensures
            r@ == self.vertices_view(),
    {
        self.vertices.as_slice()
    }

    /// Edges read so far.
    pub fn edges(&self) -> (r: &[(VertexId, VertexId)])
        ensures
            r@ == self.edges_view(),
    {
        self.edges.as_slice()
    }

    /// The vertex count of the header.
    pub fn expected_vertex_count(&self) -> (r: usize)
        ensures
            r == self.counts().0,
    {
        self.expected_vertex_count
    }

    /// The edge count of the header.
    pub fn expected_edge_count(&self) -> (r: usize)
        ensures
            r == self.counts().1,
    {
        self.expected_edge_count
    }

    /// Reads the header: the first two words are the vertex and the edge
    /// count; a header of fewer words leaves both as they are.
    pub fn parse_header_line(&mut self, header: &[u8]) -> (r: Result<(), MetisError>)
        ensures
            final(self).vertices_view() == old(self).vertices_view(),
            final(self).edges_view() == old(self).edges_view(),
            r is Ok <==> all_numbers(words(header@)),
            r is Ok && words(header@).len() >= 2 ==> final(self).counts() == (decimal(words(header@)[0]), decimal(words(header@)[1])),
            !(r is Ok && words(header@).len() >= 2) ==> final(self).counts() == old(self).counts(),
    {
        match split_numbers(header) {
            None => Err(MetisError::InvalidNumber),
            Some(parts) => {
                if parts.len() >= 2 {
                    self.expected_vertex_count = parts[0] as usize;
                    self.expected_edge_count = parts[1] as usize;
                }
                Ok(())
            },
        }
    }

    /// Reads the line of vertex `idx` and returns the number of the next
    /// vertex line; a comment changes nothing.
    pub fn parse_content_line(&mut self, line: &[u8], idx: VertexId) -> (r: Result<VertexId, MetisError>)
        ensures
            final(self).counts() == old(self).counts(),
            is_comment(line@) ==> r == Ok::<VertexId, MetisError>(idx) && final(self).vertices_view() == old(self).vertices_view()
                && final(self).edges_view() == old(self).edges_view(),
            !is_comment(line@) ==> (r is Ok <==> all_numbers(words(line@)) && idx < u32::MAX),
            !is_comment(line@) && r is Ok ==> r == Ok::<VertexId, MetisError>((idx + 1) as VertexId)
                && final(self).vertices_view() == old(self).vertices_view().push(idx)
                && final(self).edges_view() == old(self).edges_view() + line_edges(idx, words(line@)),
            r is Err ==> final(self).vertices_view() == old(self).vertices_view() && final(self).edges_view() == old(self).edges_view(),
    {
        if line.len() > 0 && line[0] == 37 {
            return Ok(idx);
        }
        let targets = match split_numbers(line) {
            None => {
                return Err(MetisError::InvalidNumber);
            },
            Some(t) => t,
        };
        if idx == u32::MAX {
            return Err(MetisError::TooManyVertices);
        }
        let ghost e0 = self.edges@;
        let ghost ws = words(line@);
        self.vertices.push(idx);
        let mut k: usize = 0;
        while k < targets.len()
            invariant
                self.vertices@ == old(self).vertices@.push(idx),
                self.expected_vertex_count == old(self).expected_vertex_count,
                self.expected_edge_count == old(self).expected_edge_count,
                e0 == old(self).edges@,
                k <= targets@.len(),
                targets@.len() == ws.len(),
                forall|j: int| 0 <= j < targets@.len() ==> #[trigger] targets@[j] as nat == decimal(ws[j]),
                self.edges@ == e0 + line_edges(idx, ws).subrange(0, k as int),
            decreases targets@.len() - k,
        {
            self.edges.push((idx, targets[k]));
            proof {
                assert(line_edges(idx, ws)[k as int] == (idx, targets@[k as int]));
                assert(self.edges@ =~= e0 + line_edges(idx, ws).subrange(0, k + 1 as int));
            }
            k = k + 1;
        }
        proof {
            assert(line_edges(idx, ws).subrange(0, k as int) =~= line_edges(idx, ws));
        }
        Ok(idx + 1)
    }

    /// Reads the lines of a file: the first line that is no comment is the
    /// header, each further one the line of the next vertex.
    pub fn parse(&mut self, lines: &Vec<Vec<u8>>) -> (r: Result<(), MetisError>)
        requires
            old(self).vertices_view() == Seq::<VertexId>::empty(),
            old(self).edges_view() == Seq::<(VertexId, VertexId)>::empty(),
            old(self).counts() == (0nat, 0nat),
        ensures
            ({
                let lv = lines@.map_values(|l: Vec<u8>| l@);
                match read(lv, lv.len()) {
                    None => r is Err,
                    Some((seen, vs, es, nv, ne)) => r is Ok && final(self).vertices_view() == vs
                        && final(self).edges_view() == es && final(self).counts() == (nv, ne),
                }
            }),
    {
        let ghost lv = lines@.map_values(|l: Vec<u8>| l@);
        let mut seen = false;
        let mut idx: VertexId = 1;
        let mut i: usize = 0;
        while i < lines.len()
            invariant
                lv == lines@.map_values(|l: Vec<u8>| l@),
                i <= lines@.len(),
                read(lv, i as nat) == Some((seen, self.vertices_view(), self.edges_view(), self.counts().0, self.counts().1)),
                self.vertices_view().len() + 1 == idx,
            decreases lines@.len() - i,
        {
            let line = lines[i].as_slice();
            proof {
                assert(line@ == lv[i as int]);
            }
            if line.len() > 0 && line[0] == 37 {
            } else if !seen {
                let header = self.parse_header_line(line);
                if header.is_err() {
                    proof {
                        lemma_read_none(lv, (i + 1) as nat, lv.len());
                    }
                    return Err(MetisError::InvalidNumber);
                }
                seen = true;
            } else {
                let next = self.parse_content_line(line, idx);
                match next {
                    Ok(n) => {
                        idx = n;
                    },
                    Err(e) => {
                        proof {
                            lemma_read_none(lv, (i + 1) as nat, lv.len());
                        }
                        return Err(e);
                    },
                }
            }
            i = i + 1;
        }
        proof {
            assert(lv.len() == i);
        }
        Ok(())
    }
}

} // verus!
