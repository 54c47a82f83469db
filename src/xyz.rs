//! Lines of the XYZ voxel format: header directives, identifier markers and
//! coordinate triplets, read as whitespace-separated tokens.

use vstd::prelude::*;

use crate::error::Error;

verus! {

/// ASCII whitespace: space, tab, line feed, vertical tab, form feed,
/// carriage return.
pub open spec fn is_space(b: u8) -> bool {
    b == 32 || (9 <= b && b <= 13)
}

/// Number of leading bytes of `s` that are not whitespace.
pub open spec fn word_len(s: Seq<u8>) -> nat
    decreases s.len(),
{
    if s.len() == 0 || is_space(s[0]) {
        0
    } else {
        1 + word_len(s.drop_first())
    }
}

/// The maximal runs of non-whitespace bytes of `s`, in order.
pub open spec fn tokens(s: Seq<u8>) -> Seq<Seq<u8>>
    decreases s.len(),
{
    if s.len() == 0 {
        Seq::empty()
    } else if is_space(s[0]) {
        tokens(s.drop_first())
    } else {
        let w = word_len(s);
        if 0 < w <= s.len() {
            seq![s.subrange(0, w as int)] + tokens(s.subrange(w as int, s.len() as int))
        } else {
            Seq::empty()
        }
    }
}

proof fn lemma_word_len(s: Seq<u8>, m: nat)
    requires
        m <= s.len(),
        forall|k: int| 0 <= k < m ==> !is_space(#[trigger] s[k]),
        m == s.len() || is_space(s[m as int]),
    ensures
        word_len(s) == m,
    decreases m,
{
    if m > 0 {
        assert forall|k: int| 0 <= k < m - 1 implies !is_space(#[trigger] s.drop_first()[k]) by {
            assert(s.drop_first()[k] == s[k + 1]);
        }
        if m < s.len() {
            assert(s.drop_first()[m - 1] == s[m as int]);
        }
        lemma_word_len(s.drop_first(), (m - 1) as nat);
    }
}

/// The tokens of `line`.
pub fn split_tokens(line: &[u8]) -> (r: Vec<Vec<u8>>)
    ensures
        r@.map_values(|t: Vec<u8>| t@) == tokens(line@),
{
    let ghost all = line@;
    let mut out: Vec<Vec<u8>> = Vec::new();
    let mut i: usize = 0;
    assert(all.subrange(0, all.len() as int) =~= all);
    while i < line.len()
        invariant
            i <= all.len(),
            all == line@,
            tokens(all) == out@.map_values(|t: Vec<u8>| t@) + tokens(all.subrange(i as int, all.len() as int)),
        decreases all.len() - i,
    {
        let ghost rest = all.subrange(i as int, all.len() as int);
        if line[i] == 32 || (9 <= line[i] && line[i] <= 13) {
            assert(rest.drop_first() =~= all.subrange(i + 1, all.len() as int));
            i += 1;
        } else {
            let start = i;
            let mut word: Vec<u8> = Vec::new();
            while i < line.len() && !(line[i] == 32 || (9 <= line[i] && line[i] <= 13))
                invariant
                    start <= i <= all.len(),
                    all == line@,
                    word@ == all.subrange(start as int, i as int),
                    forall|k: int| start <= k < i ==> !is_space(#[trigger] all[k]),
                decreases all.len() - i,
            {
                word.push(line[i]);
                i += 1;
                assert(word@ =~= all.subrange(start as int, i as int));
            }
            proof {
                let m = (i - start) as nat;
                assert forall|k: int| 0 <= k < m implies !is_space(#[trigger] rest[k]) by {
                    assert(rest[k] == all[start + k]);
                }
                if i < all.len() {
                    assert(rest[m as int] == all[i as int]);
                }
                lemma_word_len(rest, m);
                assert(rest.subrange(0, m as int) =~= word@);
                assert(rest.subrange(m as int, rest.len() as int) =~= all.subrange(i as int, all.len() as int));
            }
            let ghost before = out@.map_values(|t: Vec<u8>| t@);
            out.push(word);
            assert(out@.map_values(|t: Vec<u8>| t@) =~= before.push(all.subrange(start as int, i as int)));
            assert(before.push(all.subrange(start as int, i as int)) + tokens(all.subrange(i as int, all.len() as int))
                =~= before + (seq![all.subrange(start as int, i as int)] + tokens(all.subrange(i as int, all.len() as int))));
        }
    }
    assert(all.subrange(i as int, all.len() as int) =~= Seq::<u8>::empty());
    assert(out@.map_values(|t: Vec<u8>| t@) + Seq::<Seq<u8>>::empty() =~= out@.map_values(|t: Vec<u8>| t@));
    out
}

/// `t` without its leading `#` characters.
pub open spec fn trim_hashes(t: Seq<u8>) -> Seq<u8>
    decreases t.len(),
{
    if t.len() > 0 && t[0] == 35 {
        trim_hashes(t.drop_first())
    } else {
        t
    }
}

/// `t` starts with `#A`.
pub open spec fn is_marker(t: Seq<u8>) -> bool {
    t.len() >= 2 && t[0] == 35 && t[1] == 65
}

/// The directives that carry no data here: `RGBA`, `RGB` and `SCALE`.
pub open spec fn is_directive(t: Seq<u8>) -> bool {
    t == seq![82u8, 71, 66, 65] || t == seq![82u8, 71, 66] || t == seq![83u8, 67, 65, 76, 69]
}

/// `line` holds `WHS` somewhere.
pub open spec fn mentions_whs(line: Seq<u8>) -> bool {
    exists|i: int| 0 <= i && i + 3 <= line.len() && line[i] == 87 && line[i + 1] == 72 && #[trigger] line[i + 2] == 83
}

/// What one line of the format says.
#[derive(Clone, Debug, PartialEq, Eq)]
pub enum XyzLine {
    /// Nothing to take from this line.
    Skip,
    /// The identifier of the points that follow.
    Identifier(Vec<u8>),
    /// The comma-separated voxel coordinates of the atlas origin.
    Origin(Vec<u8>),
    /// The three coordinates of a point, still as text.
    Point(Vec<u8>, Vec<u8>, Vec<u8>),
}

/// The classification of a line by its tokens: blank lines and directives
/// are skipped, a first token starting with `#A` names the current
/// identifier, a line mentioning `WHS` gives the origin, three tokens give a
/// point, anything else is skipped.
pub open spec fn classified(line: Seq<u8>, r: XyzLine) -> bool {
    let t = tokens(line);
    if t.len() == 0 || is_directive(t[0]) {
        r == XyzLine::Skip
    } else if is_marker(t[0]) {
        r matches XyzLine::Identifier(id) && id@ == trim_hashes(t[0])
    } else if mentions_whs(line) {
        r matches XyzLine::Origin(o) && o@ == t[0]
    } else if t.len() == 3 {
        r matches XyzLine::Point(x, y, z) && x@ == t[0] && y@ == t[1] && z@ == t[2]
    } else {
        r == XyzLine::Skip
    }
}

fn is_directive_token(t: &Vec<u8>) -> (r: bool)
    ensures
        r == is_directive(t@),
{
    let rgba = t.len() == 4 && t[0] == 82 && t[1] == 71 && t[2] == 66 && t[3] == 65;
    let rgb = t.len() == 3 && t[0] == 82 && t[1] == 71 && t[2] == 66;
    let scale = t.len() == 5 && t[0] == 83 && t[1] == 67 && t[2] == 65 && t[3] == 76 && t[4] == 69;
    if rgba {
        assert(t@ =~= seq![82u8, 71, 66, 65]);
    }
    if rgb {
        assert(t@ =~= seq![82u8, 71, 66]);
    }
    if scale {
        assert(t@ =~= seq![83u8, 67, 65, 76, 69]);
    }
    rgba || rgb || scale
}

fn trim_hash_token(t: &Vec<u8>) -> (r: Vec<u8>)
    ensures
        r@ == trim_hashes(t@),
{
    let mut i: usize = 0;
    assert(t@.subrange(0, t@.len() as int) =~= t@);
    while i < t.len() && t[i] == 35
        invariant
            i <= t@.len(),
            trim_hashes(t@) == trim_hashes(t@.subrange(i as int, t@.len() as int)),
        decreases t@.len() - i,
    {
        assert(t@.subrange(i as int, t@.len() as int).drop_first() =~= t@.subrange(i + 1, t@.len() as int));
        i += 1;
    }
    let mut out: Vec<u8> = Vec::new();
    let start = i;
    while i < t.len()
        invariant
            start <= i <= t@.len(),
            out@ == t@.subrange(start as int, i as int),
        decreases t@.len() - i,
    {
        out.push(t[i]);
        i += 1;
        assert(out@ =~= t@.subrange(start as int, i as int));
    }
    out
}

fn has_whs(line: &[u8]) -> (r: bool)
    ensures
        r == mentions_whs(line@),
{
    let mut i: usize = 0;
    while line.len() >= 3 && i <= line.len() - 3
        invariant
            line.len() >= 3 ==> i <= line@.len() - 2,
            forall|k: int| 0 <= k < i ==> !(k + 3 <= line@.len() && line@[k] == 87 && line@[k + 1] == 72 && #[trigger] line@[k + 2] == 83),
        decreases line@.len() - i,
    {
        if line[i] == 87 && line[i + 1] == 72 && line[i + 2] == 83 {
            return true;
        }
        i += 1;
    }
    false
}

/// What one line says, by its tokens.
pub fn classify_line(line: &[u8]) -> (r: XyzLine)
    ensures
        classified(line@, r),
{
    let mut t = split_tokens(line);
    let ghost tv = t@.map_values(|x: Vec<u8>| x@);
    assert(tv == tokens(line@));
    if t.len() == 0 {
        return XyzLine::Skip;
    }
    assert(tv[0] == t@[0]@);
    if is_directive_token(&t[0]) {
        XyzLine::Skip
    } else if t[0].len() >= 2 && t[0][0] == 35 && t[0][1] == 65 {
        XyzLine::Identifier(trim_hash_token(&t[0]))
    } else if has_whs(line) {
        let first = t.remove(0);
        XyzLine::Origin(first)
    } else if t.len() == 3 {
        assert(tv[1] == t@[1]@ && tv[2] == t@[2]@);
        let z = t.pop().unwrap();
        let y = t.pop().unwrap();
        let x = t.pop().unwrap();
        XyzLine::Point(x, y, z)
    } else {
        XyzLine::Skip
    }
}

/// A point as read: its identifier, its three coordinates as text, and
/// whether the origin was known when it was read.
pub type XyzPoint = (Vec<u8>, Vec<u8>, Vec<u8>, Vec<u8>, bool);

/// The state of a reader of the format, line after line.
#[derive(Clone, Debug)]
pub struct XyzReader {
    /// The origin line's first token, once read.
    pub origin: Option<Vec<u8>>,
    /// The identifier of the points that follow.
    pub current: Option<Vec<u8>>,
    /// The points read so far, in order.
    pub points: Vec<XyzPoint>,
}

impl XyzReader {
    /// A reader before the first line.
    pub fn new() -> (r: XyzReader)
        ensures
            r.origin is None,
            r.current is None,
            r.points@.len() == 0,
    {
        XyzReader { origin: None, current: None, points: Vec::new() }
    }

    /// Take in one line. An identifier marker replaces the current
    /// identifier; the origin may be given once, and a second origin is
    /// malformed input; a point is kept under the current identifier, noting
    /// whether the origin is known yet, and left out when there is no
    /// identifier yet.
    pub fn read_line(&mut self, line: &[u8]) -> (r: Result<(), Error>)
        ensures
            ({
                let t = tokens(line@);
                if t.len() == 0 || is_directive(t[0]) {
                    r is Ok && *final(self) == *old(self)
                } else if is_marker(t[0]) {
                    r is Ok && final(self).origin == old(self).origin && final(self).points == old(self).points
                        && (final(self).current matches Some(id) && id@ == trim_hashes(t[0]))
                } else if mentions_whs(line@) {
                    if old(self).origin is Some {
                        r == Err::<(), Error>(Error::Deserialize)
                    } else {
                        r is Ok && final(self).current == old(self).current && final(self).points == old(self).points
                            && (final(self).origin matches Some(o) && o@ == t[0])
                    }
                } else if t.len() == 3 {
                    match old(self).current {
                        None => r is Ok && *final(self) == *old(self),
                        Some(id) => r is Ok && final(self).origin == old(self).origin
                            && final(self).current == old(self).current
                            && final(self).points@.len() == old(self).points@.len() + 1
                            && final(self).points@.subrange(0, old(self).points@.len() as int) == old(self).points@
                            && ({
                                let p = final(self).points@.last();
                                p.0@ == id@ && p.1@ == t[0] && p.2@ == t[1] && p.3@ == t[2] && p.4 == old(
                                    self,
                                ).origin is Some
                            }),
                    }
                } else {
                    r is Ok && *final(self) == *old(self)
                }
            }),
    {
        match classify_line(line) {
            XyzLine::Skip => Ok(()),
            XyzLine::Identifier(id) => {
                self.current = Some(id);
                Ok(())
            },
            XyzLine::Origin(o) => {
                if self.origin.is_some() {
                    return Err(Error::Deserialize);
                }
                self.origin = Some(o);
                Ok(())
            },
            XyzLine::Point(x, y, z) => {
                match &self.current {
                    None => Ok(()),
                    Some(id) => {
                        let known = self.origin.is_some();
                        let id = id.clone();
                        let ghost before = self.points@;
                        self.points.push((id, x, y, z, known));
                        assert(self.points@.subrange(0, before.len() as int) =~= before);
                        Ok(())
                    },
                }
            },
        }
    }
}

} // verus!
