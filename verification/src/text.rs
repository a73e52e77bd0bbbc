//! Reading-position bookkeeping and the text layout helpers around it:
//! tracking how far into a text a reader is, splitting words to a width,
//! and justifying lines by distributing spaces.
//!
//! Lengths and positions count characters throughout.

use vstd::arithmetic::div_mod::lemma_fundamental_div_mod;
use vstd::prelude::*;

use crate::types::is_space;
use vstd::string::StrSliceExecFns;
use vstd::string::StringExecFns;

verus! {

/// A text a reader works through incrementally: its name, how many
/// characters it holds, and how far the reader has come. Loading the text
/// itself and persisting the position are the caller's concern.
#[derive(Clone, Debug)]
pub struct TextFile {
    pub name: String,
    pub position: usize,
    pub length: usize,
}

impl TextFile {
    pub fn new(name: String, length: usize) -> (r: TextFile)
        ensures
            r.name@ == name@,
            r.length == length,
            r.position == 0,
    {
        TextFile { name, position: 0, length }
    }

    pub fn name(&self) -> (r: &str)
        ensures
            r@ == self.name@,
    {
        self.name.as_str()
    }

    /// A reader is done when fewer than 500 characters remain.
    pub fn is_finished(&self) -> (r: bool)
        ensures
            r == (self.position + 500 >= self.length),
    {
        self.length <= self.position || self.length - self.position <= 500
    }

    pub fn position(&self) -> (r: usize)
        ensures
            r == self.position,
    {
        self.position
    }

    /// Record a new reading position as given.
    pub fn save_pos(&mut self, new_pos: usize)
        ensures
            final(self).position == new_pos,
            final(self).name@ == old(self).name@,
            final(self).length == old(self).length,
    {
        self.position = new_pos;
    }

    /// Step backwards, stopping at the start of the text.
    pub fn position_decrement(&mut self, dec: usize)
        ensures
            final(self).position == if old(self).position < dec {
                0int
            } else {
                old(self).position - dec
            },
            final(self).name@ == old(self).name@,
            final(self).length == old(self).length,
    {
        let new_pos = if self.position < dec {
            0
        } else {
            self.position - dec
        };
        self.save_pos(new_pos);
    }

    /// Step forwards, stopping at the end of the text.
    pub fn position_increment(&mut self, inc: usize)
        ensures
            final(self).position == if old(self).position + inc <= old(self).length {
                old(self).position + inc
            } else {
                old(self).length as int
            },
            final(self).name@ == old(self).name@,
            final(self).length == old(self).length,
    {
        let new_pos = if self.position >= self.length {
            self.length
        } else if inc >= self.length - self.position {
            self.length
        } else {
            self.position + inc
        };
        self.save_pos(new_pos);
    }
}

/// Two bookkeeping entries describe the same reading state.
pub open spec fn tf_like(a: TextFile, b: TextFile) -> bool {
    a.name@ == b.name@ && a.position == b.position && a.length == b.length
}

impl TextFile {
    /// An entry copied field for field.
    pub fn duplicate(&self) -> (r: TextFile)
        ensures
            tf_like(r, *self),
    {
        TextFile { name: self.name.clone(), position: self.position, length: self.length }
    }
}

/// The reading positions a session keeps, one entry per text name.
/// Loading and storing this bookkeeping is the caller's concern; here an
/// upsert by name keeps the collection free of duplicates.
pub struct TextProgress {
    pub files: Vec<TextFile>,
}

impl TextProgress {
    /// No two entries share a name.
    pub open spec fn wf(self) -> bool {
        forall|k1: int, k2: int|
            #![trigger self.files@[k1], self.files@[k2]]
            0 <= k1 < k2 < self.files@.len() ==> self.files@[k1].name@ != self.files@[k2].name@
    }

    pub open spec fn has_name(self, name: Seq<char>) -> bool {
        exists|k: int| 0 <= k < self.files@.len() && self.files@[k].name@ == name
    }

    pub fn new() -> (r: TextProgress)
        ensures
            r.wf(),
            r.files@.len() == 0,
    {
        TextProgress { files: Vec::new() }
    }

    pub fn len(&self) -> (r: usize)
        ensures
            r == self.files@.len(),
    {
        self.files.len()
    }

    /// File an entry under its name: an existing entry of that name is
    /// replaced in place, otherwise the entry is appended. Filing the
    /// same state twice leaves the collection as after once.
    pub fn upsert(&mut self, file: TextFile) -> (i: usize)
        requires
            old(self).wf(),
        ensures
            final(self).wf(),
            i <= old(self).files@.len(),
            i < old(self).files@.len() ==> old(self).files@[i as int].name@ == file.name@
                && final(self).files@.len() == old(self).files@.len(),
            i == old(self).files@.len() ==> !old(self).has_name(file.name@) && final(self).files@.len() == old(self).files@.len() + 1,
            final(self).files@[i as int] == file,
            forall|j: int|
                0 <= j < old(self).files@.len() && j != i ==> #[trigger] final(self).files@[j]
                    == old(self).files@[j],
    {
        let n = self.files.len();
        for k in 0..n
            invariant
                self == old(self),
                old(self).wf(),
                n == self.files@.len(),
                forall|m: int| 0 <= m < k ==> self.files@[m].name@ != file.name@,
        {
            if self.files[k].name == file.name {
                let ghost old_files = self.files@;
                self.files.set(k, file);
                proof {
                    assert forall|k1: int, k2: int|
                        0 <= k1 < k2 < self.files@.len() implies self.files@[k1].name@
                        != self.files@[k2].name@ by {
                        assert((old(self).files@[k1]).name@ != (old(self).files@[k2]).name@);
                        if k1 != k as int {
                            assert(self.files@[k1] == old_files[k1]);
                        }
                        if k2 != k as int {
                            assert(self.files@[k2] == old_files[k2]);
                        }
                    }
                }
                return k;
            }
        }
        let ghost old_files = self.files@;
        self.files.push(file);
        proof {
            assert forall|k1: int, k2: int|
                0 <= k1 < k2 < self.files@.len() implies self.files@[k1].name@
                != self.files@[k2].name@ by {
                if k2 == old_files.len() as int {
                    assert(self.files@[k1] == old_files[k1]);
                    assert(old_files[k1].name@ != file.name@);
                } else {
                    assert(self.files@[k1] == old_files[k1]);
                    assert(self.files@[k2] == old_files[k2]);
                    assert((old(self).files@[k1]).name@ != (old(self).files@[k2]).name@);
                }
            }
        }
        n
    }

    /// The entry filed under a name, if any.
    pub fn get(&self, name: &String) -> (r: Option<&TextFile>)
        ensures
            match r {
                Some(f) => f.name@ == name@ && self.has_name(name@),
                None => !self.has_name(name@),
            },
    {
        let n = self.files.len();
        for k in 0..n
            invariant
                n == self.files@.len(),
                forall|m: int| 0 <= m < k ==> self.files@[m].name@ != name@,
        {
            if self.files[k].name == *name {
                return Some(&self.files[k]);
            }
        }
        None
    }

    /// Every entry, copied out in filing order.
    pub fn load_all(&self) -> (r: Vec<TextFile>)
        ensures
            r@.len() == self.files@.len(),
            forall|k: int| 0 <= k < r@.len() ==> tf_like(#[trigger] r@[k], self.files@[k]),
    {
        let mut out: Vec<TextFile> = Vec::new();
        let n = self.files.len();
        for k in 0..n
            invariant
                n == self.files@.len(),
                out@.len() == k,
                forall|m: int| 0 <= m < k ==> tf_like(#[trigger] out@[m], self.files@[m]),
        {
            out.push(self.files[k].duplicate());
        }
        out
    }
}

/// The first `n` characters of a string and, when any remain, the rest.
pub fn split_at_char<'a>(s: &'a str, n: usize) -> (r: (&'a str, Option<&'a str>))
    ensures
        s@.len() <= n ==> r.0@ == s@ && r.1 is None,
        s@.len() > n ==> r.0@ == s@.take(n as int) && (r.1 matches Some(t) && t@ == s@.skip(
            n as int,
        )),
{
    let len = s.unicode_len();
    if len <= n {
        (s, None)
    } else {
        (s.substring_char(0, n), Some(s.substring_char(n, len)))
    }
}

/// `n` spaces.
pub open spec fn space_seq(n: nat) -> Seq<char> {
    Seq::new(n, |i: int| ' ')
}

/// The characters of the words from `i` on.
pub open spec fn sum_from(ws: Seq<Seq<char>>, i: int) -> int
    decreases ws.len() - i,
{
    if i < 0 || i >= ws.len() {
        0
    } else {
        ws[i].len() + sum_from(ws, i + 1)
    }
}

pub proof fn lemma_sum_from_nonneg(ws: Seq<Seq<char>>, i: int)
    ensures
        sum_from(ws, i) >= 0,
    decreases ws.len() - i,
{
    if 0 <= i < ws.len() {
        lemma_sum_from_nonneg(ws, i + 1);
    }
}

/// The gap printed after word `i`: the base run of spaces, one wider for
/// the first `extra` gaps.
pub open spec fn line_gap(each: nat, extra: int, i: int) -> Seq<char> {
    space_seq((each + (if i < extra {
        1nat
    } else {
        0nat
    })) as nat)
}

/// The words from `i` on, laid out with their gaps; the last word takes
/// no gap.
pub open spec fn assemble_line(ws: Seq<Seq<char>>, each: nat, extra: int, i: int) -> Seq<char>
    decreases ws.len() - i,
{
    if i < 0 || i >= ws.len() {
        Seq::empty()
    } else if i == ws.len() - 1 {
        ws[i]
    } else {
        ws[i] + line_gap(each, extra, i) + assemble_line(ws, each, extra, i + 1)
    }
}

/// A line of words padded out to `width` characters: the spaces owed are
/// divided evenly over the gaps between words, the remainder going one
/// each to the leftmost gaps. A single word, or words already wider than
/// the line, take no padding.
pub open spec fn justified_line_spec(ws: Seq<Seq<char>>, width: int) -> Seq<char> {
    let total = sum_from(ws, 0);
    let spaces = if width > total {
        width - total
    } else {
        0
    };
    let div = if ws.len() > 1 {
        ws.len() - 1
    } else {
        1
    };
    assemble_line(ws, (spaces / (div as int)) as nat, spaces % (div as int), 0)
}

/// A run of `n` spaces.
fn make_spaces(n: usize) -> (r: String)
    ensures
        r@ == space_seq(n as nat),
{
    let mut out = String::new();
    proof {
        reveal_strlit(" ");
        assert(out@ =~= space_seq(0));
    }
    let mut k: usize = 0;
    while k < n
        invariant
            k <= n,
            out@ == space_seq(k as nat),
        decreases n - k,
    {
        out.append(" ");
        k = k + 1;
        proof {
            reveal_strlit(" ");
            assert(out@ =~= space_seq(k as nat));
        }
    }
    out
}

/// A line of words joined by evenly distributed padding, as
/// [`justified_line_spec`] lays it out.
pub fn justify_line(line: &Vec<&str>, line_width: usize) -> (r: String)
    requires
        sum_from(line@.map_values(|w: &str| w@), 0) <= usize::MAX,
    ensures
        r@ == justified_line_spec(line@.map_values(|w: &str| w@), line_width as int),
{
    let ghost ws = line@.map_values(|w: &str| w@);
    let n = line.len();
    let mut total: usize = 0;
    for i in 0..n
        invariant
            n == ws.len(),
            ws == line@.map_values(|w: &str| w@),
            total + sum_from(ws, i as int) == sum_from(ws, 0),
            sum_from(ws, 0) <= usize::MAX,
            total <= usize::MAX,
    {
        proof {
            lemma_sum_from_nonneg(ws, i + 1);
            assert(ws[i as int] == line@[i as int]@);
        }
        total = total + line[i].unicode_len();
    }
    let spaces = if line_width > total {
        line_width - total
    } else {
        0
    };
    let div = if n > 1 {
        n - 1
    } else {
        1
    };
    let each = spaces / div;
    let extra = spaces % div;
    let mut out = String::new();
    proof {
        assert(out@ + assemble_line(ws, each as nat, extra as int, 0) =~= assemble_line(
            ws,
            each as nat,
            extra as int,
            0,
        ));
    }
    for i in 0..n
        invariant
            n == ws.len(),
            ws == line@.map_values(|w: &str| w@),
            each == spaces / div,
            extra == spaces % div,
            assemble_line(ws, each as nat, extra as int, 0) == out@ + assemble_line(
                ws,
                each as nat,
                extra as int,
                i as int,
            ),
    {
        proof {
            assert(ws[i as int] == line@[i as int]@);
        }
        out.append(line[i]);
        if i + 1 < n {
            let gap = make_spaces(each);
            out.append(gap.as_str());
            if i < extra {
                out.append(" ");
            }
            proof {
                reveal_strlit(" ");
                if i < extra {
                    assert(space_seq(each as nat).push(' ') =~= space_seq((each + 1) as nat));
                    assert(space_seq(each as nat) + " "@ =~= space_seq((each + 1) as nat));
                }
                assert(line_gap(each as nat, extra as int, i as int) =~= space_seq(
                    (each + (if (i as int) < (extra as int) {
                        1nat
                    } else {
                        0nat
                    })) as nat,
                ));
                assert(assemble_line(ws, each as nat, extra as int, i as int) =~= ws[i as int]
                    + line_gap(each as nat, extra as int, i as int) + assemble_line(
                    ws,
                    each as nat,
                    extra as int,
                    i + 1,
                ));
            }
        } else {
            proof {
                assert(assemble_line(ws, each as nat, extra as int, i as int) =~= ws[i as int]);
                assert(assemble_line(ws, each as nat, extra as int, i + 1) =~= Seq::<
                    char,
                >::empty());
            }
        }
    }
    proof {
        assert(assemble_line(ws, each as nat, extra as int, n as int) =~= Seq::<char>::empty());
        assert(out@ + Seq::<char>::empty() =~= out@);
    }
    out
}

/// Length of a laid-out tail: the words themselves, a base gap after each
/// but the last, and one widening for each gap before `extra`.
pub proof fn lemma_assemble_len(ws: Seq<Seq<char>>, each: nat, extra: int, i: int)
    requires
        0 <= i < ws.len(),
        0 <= extra <= ws.len() - 1,
    ensures
        assemble_line(ws, each, extra, i).len() == sum_from(ws, i) + each * (ws.len() - 1 - i) + (
        if extra <= i {
            0int
        } else {
            extra - i
        }),
    decreases ws.len() - i,
{
    if i == ws.len() - 1 {
        assert(sum_from(ws, i) == ws[i].len() + sum_from(ws, i + 1));
        assert(each * (ws.len() - 1 - i) == 0) by (nonlinear_arith)
            requires
                i == ws.len() - 1,
        ;
    } else {
        lemma_assemble_len(ws, each, extra, i + 1);
        assert(each * (ws.len() - 1 - i) == each * (ws.len() - 1 - (i + 1)) + each)
            by (nonlinear_arith);
    }
}

/// A justified line is as wide as the target, or as wide as its words
/// when they already reach it; a single word stands alone.
pub proof fn lemma_justified_line_len(ws: Seq<Seq<char>>, width: int)
    requires
        ws.len() >= 1,
    ensures
        justified_line_spec(ws, width).len() == if ws.len() == 1 || sum_from(ws, 0) >= width {
            sum_from(ws, 0)
        } else {
            width
        },
{
    let total = sum_from(ws, 0);
    let spaces = if width > total {
        width - total
    } else {
        0
    };
    let div: int = if ws.len() > 1 {
        ws.len() - 1
    } else {
        1
    };
    lemma_fundamental_div_mod(spaces, div);
    lemma_assemble_len(ws, (spaces / div) as nat, spaces % div, 0);
    if ws.len() == 1 {
        assert((spaces / div) as nat * (ws.len() - 1 - 0) == 0) by (nonlinear_arith)
            requires
                ws.len() == 1,
        ;
    } else {
        assert((spaces / div) as nat * (ws.len() - 1) + spaces % div == spaces) by (
        nonlinear_arith)
            requires
                div == ws.len() - 1,
                div >= 1,
                spaces >= 0,
                spaces == div * (spaces / div) + spaces % div,
        ;
    }
}

/// Words joined by single spaces: the unpadded last line of a paragraph.
fn join_spaces(line: &Vec<&str>) -> (r: String)
    ensures
        r@ == assemble_line(line@.map_values(|w: &str| w@), 1, 0, 0),
{
    let ghost ws = line@.map_values(|w: &str| w@);
    let n = line.len();
    let mut out = String::new();
    proof {
        assert(out@ + assemble_line(ws, 1, 0, 0) =~= assemble_line(ws, 1, 0, 0));
    }
    for i in 0..n
        invariant
            n == ws.len(),
            ws == line@.map_values(|w: &str| w@),
            assemble_line(ws, 1, 0, 0) == out@ + assemble_line(ws, 1, 0, i as int),
    {
        proof {
            assert(ws[i as int] == line@[i as int]@);
        }
        out.append(line[i]);
        if i + 1 < n {
            out.append(" ");
            proof {
                reveal_strlit(" ");
                assert(line_gap(1, 0, i as int) =~= " "@);
                assert(assemble_line(ws, 1, 0, i as int) =~= ws[i as int] + line_gap(
                    1,
                    0,
                    i as int,
                ) + assemble_line(ws, 1, 0, i + 1));
            }
        } else {
            proof {
                assert(assemble_line(ws, 1, 0, i as int) =~= ws[i as int]);
                assert(assemble_line(ws, 1, 0, i + 1) =~= Seq::<char>::empty());
            }
        }
    }
    proof {
        assert(assemble_line(ws, 1, 0, n as int) =~= Seq::<char>::empty());
        assert(out@ + Seq::<char>::empty() =~= out@);
    }
    out
}

/// The paragraphs still to come: the rest of the text read with a
/// partial paragraph in hand. A blank line — two newlines in a row —
/// closes the paragraph in hand; the end closes the last one, so there
/// is always at least one.
pub open spec fn paras_acc(s: Seq<char>, cur: Seq<char>) -> Seq<Seq<char>>
    decreases s.len(),
{
    if s.len() >= 2 && s[0] == '\n' && s[1] == '\n' {
        seq![cur] + paras_acc(s.skip(2), Seq::empty())
    } else if s.len() >= 1 {
        paras_acc(s.skip(1), cur.push(s[0]))
    } else {
        seq![cur]
    }
}

/// The pieces between blank lines, scanned left to right.
pub open spec fn paragraphs_of(s: Seq<char>) -> Seq<Seq<char>> {
    paras_acc(s, Seq::empty())
}

/// The paragraphs of a text: the pieces between blank lines (two
/// newlines in a row), scanned left to right.
fn split_paragraphs<'a>(text: &'a str) -> (r: Vec<&'a str>)
    ensures
        r@.map_values(|w: &str| w@) == paragraphs_of(text@),
        r@.len() >= 1,
{
    let len = text.unicode_len();
    let mut out: Vec<&str> = Vec::new();
    let mut start: usize = 0;
    let mut i: usize = 0;
    proof {
        assert(text@.skip(0) =~= text@);
        assert(text@.subrange(0, 0) =~= Seq::<char>::empty());
        assert(out@.map_values(|w: &str| w@) + paragraphs_of(text@) =~= paragraphs_of(text@));
    }
    while i < len
        invariant
            len == text@.len(),
            start <= i <= len,
            paragraphs_of(text@) == out@.map_values(|w: &str| w@) + paras_acc(
                text@.skip(i as int),
                text@.subrange(start as int, i as int),
            ),
        decreases len - i,
    {
        let ghost cur = text@.subrange(start as int, i as int);
        proof {
            assert(text@.skip(i as int)[0] == text@[i as int]);
            if i + 1 < len {
                assert(text@.skip(i as int)[1] == text@[i + 1]);
                assert(text@.skip(i as int).skip(2) =~= text@.skip(i + 2));
            }
            assert(text@.skip(i as int).skip(1) =~= text@.skip(i + 1));
        }
        if i + 1 < len && text.get_char(i) == '\n' && text.get_char(i + 1) == '\n' {
            let piece = text.substring_char(start, i);
            let ghost before = out@;
            out.push(piece);
            proof {
                assert(out@.map_values(|w: &str| w@) =~= before.map_values(|w: &str| w@)
                    + seq![cur]);
                assert(before.map_values(|w: &str| w@) + (seq![cur] + paras_acc(
                    text@.skip(i + 2),
                    Seq::empty(),
                )) =~= (before.map_values(|w: &str| w@) + seq![cur]) + paras_acc(
                    text@.skip(i + 2),
                    Seq::empty(),
                ));
                assert(text@.subrange(i + 2, i + 2) =~= Seq::<char>::empty());
            }
            start = i + 2;
            i = i + 2;
        } else {
            proof {
                assert(cur.push(text@[i as int]) =~= text@.subrange(start as int, i + 1));
            }
            i = i + 1;
        }
    }
    let piece = text.substring_char(start, len);
    let ghost before = out@;
    out.push(piece);
    proof {
        assert(text@.skip(len as int) =~= Seq::<char>::empty());
        assert(out@.map_values(|w: &str| w@) =~= before.map_values(|w: &str| w@) + seq![
            text@.subrange(start as int, len as int),
        ]);
    }
    out
}

/// The words still to come: the rest of the text read with a partial
/// word in hand. A space (or the end) closes the word in hand, if any;
/// any other character extends it.
pub open spec fn words_acc(s: Seq<char>, cur: Seq<char>) -> Seq<Seq<char>>
    decreases s.len(),
{
    if s.len() == 0 {
        if cur.len() > 0 {
            seq![cur]
        } else {
            Seq::empty()
        }
    } else if is_space(s[0]) {
        if cur.len() > 0 {
            seq![cur] + words_acc(s.skip(1), Seq::empty())
        } else {
            words_acc(s.skip(1), Seq::empty())
        }
    } else {
        words_acc(s.skip(1), cur.push(s[0]))
    }
}

/// The maximal whitespace-free runs of a text, in order.
pub open spec fn words_of(s: Seq<char>) -> Seq<Seq<char>> {
    words_acc(s, Seq::empty())
}

/// The maximal whitespace-free runs of a paragraph, each at least one
/// character.
fn split_words<'a>(p: &'a str) -> (r: Vec<&'a str>)
    ensures
        r@.map_values(|w: &str| w@) == words_of(p@),
        forall|k: int| 0 <= k < r@.len() ==> (#[trigger] r@[k])@.len() >= 1,
{
    let len = p.unicode_len();
    let mut out: Vec<&str> = Vec::new();
    let mut i: usize = 0;
    let mut start: usize = 0;
    let mut in_word = false;
    proof {
        assert(p@.skip(0) =~= p@);
        assert(out@.map_values(|w: &str| w@) + words_acc(p@, Seq::empty()) =~= words_of(p@));
    }
    while i < len
        invariant
            len == p@.len(),
            i <= len,
            in_word ==> start < i,
            words_of(p@) == out@.map_values(|w: &str| w@) + words_acc(
                p@.skip(i as int),
                if in_word {
                    p@.subrange(start as int, i as int)
                } else {
                    Seq::<char>::empty()
                },
            ),
            forall|k: int| 0 <= k < out@.len() ==> (#[trigger] out@[k])@.len() >= 1,
        decreases len - i,
    {
        let ghost cur = if in_word {
            p@.subrange(start as int, i as int)
        } else {
            Seq::<char>::empty()
        };
        let c = p.get_char(i);
        proof {
            assert(p@.skip(i as int)[0] == p@[i as int]);
            assert(p@.skip(i as int).skip(1) =~= p@.skip(i + 1));
        }
        if crate::types::space_char(c) {
            if in_word {
                let piece = p.substring_char(start, i);
                let ghost before = out@;
                out.push(piece);
                proof {
                    assert(out@.map_values(|w: &str| w@) =~= before.map_values(|w: &str| w@)
                        + seq![cur]);
                    assert(before.map_values(|w: &str| w@) + (seq![cur] + words_acc(
                        p@.skip(i + 1),
                        Seq::empty(),
                    )) =~= (before.map_values(|w: &str| w@) + seq![cur]) + words_acc(
                        p@.skip(i + 1),
                        Seq::empty(),
                    ));
                    assert forall|k: int|
                        0 <= k < out@.len() implies (#[trigger] out@[k])@.len() >= 1 by {
                        if k < before.len() {
                            assert(out@[k] == before[k]);
                        }
                    }
                }
                in_word = false;
            }
            i = i + 1;
        } else {
            if !in_word {
                start = i;
                in_word = true;
            }
            proof {
                assert(cur.push(p@[i as int]) =~= p@.subrange(start as int, i + 1));
            }
            i = i + 1;
        }
    }
    if in_word {
        let piece = p.substring_char(start, len);
        let ghost before = out@;
        out.push(piece);
        proof {
            assert(p@.skip(len as int) =~= Seq::<char>::empty());
            assert(out@.map_values(|w: &str| w@) =~= before.map_values(|w: &str| w@) + seq![
                p@.subrange(start as int, len as int),
            ]);
            assert forall|k: int|
                0 <= k < out@.len() implies (#[trigger] out@[k])@.len() >= 1 by {
                if k < before.len() {
                    assert(out@[k] == before[k]);
                }
            }
        }
    } else {
        proof {
            assert(p@.skip(len as int) =~= Seq::<char>::empty());
            assert(out@.map_values(|w: &str| w@) + Seq::<Seq<char>>::empty() =~= out@.map_values(
                |w: &str| w@,
            ));
        }
    }
    out
}

/// One word dealt out in pieces of at most `width` characters.
pub open spec fn chunk_word(w: Seq<char>, width: int) -> Seq<Seq<char>>
    decreases w.len(),
{
    if width < 1 || w.len() <= width {
        seq![w]
    } else {
        seq![w.take(width)] + chunk_word(w.skip(width), width)
    }
}

/// All words dealt out in pieces, in order.
pub open spec fn chunk_all(ws: Seq<Seq<char>>, width: int) -> Seq<Seq<char>>
    decreases ws.len(),
{
    if ws.len() == 0 {
        Seq::empty()
    } else {
        chunk_word(ws[0], width) + chunk_all(ws.skip(1), width)
    }
}

/// Words cut down to at most `line_width` characters each: an overlong
/// word is dealt out in full-width pieces.
fn chunk_words<'a>(raw: &Vec<&'a str>, line_width: usize) -> (r: Vec<&'a str>)
    requires
        line_width >= 1,
    ensures
        r@.map_values(|w: &str| w@) == chunk_all(
            raw@.map_values(|w: &str| w@),
            line_width as int,
        ),
        forall|k: int| 0 <= k < r@.len() ==> (#[trigger] r@[k])@.len() <= line_width,
{
    let ghost ws = raw@.map_values(|w: &str| w@);
    let mut out: Vec<&str> = Vec::new();
    let n = raw.len();
    proof {
        assert(ws.skip(0) =~= ws);
        assert(out@.map_values(|w: &str| w@) + chunk_all(ws, line_width as int) =~= chunk_all(
            ws,
            line_width as int,
        ));
    }
    for t in 0..n
        invariant
            line_width >= 1,
            n == raw@.len(),
            ws == raw@.map_values(|w: &str| w@),
            chunk_all(ws, line_width as int) == out@.map_values(|w: &str| w@) + chunk_all(
                ws.skip(t as int),
                line_width as int,
            ),
            forall|k: int| 0 <= k < out@.len() ==> (#[trigger] out@[k])@.len() <= line_width,
    {
        let mut word: &str = raw[t];
        let mut word_len = word.unicode_len();
        proof {
            assert(ws.skip(t as int)[0] == ws[t as int]);
            assert(ws.skip(t as int).skip(1) =~= ws.skip(t + 1));
            assert(ws[t as int] == raw@[t as int]@);
        }
        while word_len > line_width
            invariant
                line_width >= 1,
                word_len == word@.len(),
                t < n,
                n == raw@.len(),
                ws == raw@.map_values(|w: &str| w@),
                chunk_all(ws, line_width as int) == out@.map_values(|w: &str| w@)
                    + chunk_word(word@, line_width as int) + chunk_all(
                    ws.skip(t + 1),
                    line_width as int,
                ),
                forall|k: int|
                    0 <= k < out@.len() ==> (#[trigger] out@[k])@.len() <= line_width,
            decreases word_len,
        {
            let (w1, w2) = split_at_char(word, line_width);
            let ghost before = out@;
            out.push(w1);
            proof {
                assert(out@.map_values(|w: &str| w@) =~= before.map_values(|w: &str| w@).push(
                    w1@,
                ));
                assert(before.map_values(|w: &str| w@).push(w1@) =~= before.map_values(
                    |w: &str| w@,
                ) + seq![word@.take(line_width as int)]);
                assert(before.map_values(|w: &str| w@) + (seq![word@.take(line_width as int)]
                    + chunk_word(word@.skip(line_width as int), line_width as int)) =~= (
                before.map_values(|w: &str| w@) + seq![word@.take(line_width as int)])
                    + chunk_word(word@.skip(line_width as int), line_width as int));
                assert forall|k: int|
                    0 <= k < out@.len() implies (#[trigger] out@[k])@.len() <= line_width by {
                    if k < before.len() {
                        assert(out@[k] == before[k]);
                    }
                }
            }
            word = match w2 {
                Some(w) => w,
                None => {
                    proof {
                        assert(false);
                    }
                    word
                },
            };
            word_len = word.unicode_len();
        }
        let ghost before = out@;
        out.push(word);
        proof {
            assert(chunk_word(word@, line_width as int) =~= seq![word@]);
            assert(out@.map_values(|w: &str| w@) =~= before.map_values(|w: &str| w@).push(
                word@,
            ));
            assert(before.map_values(|w: &str| w@).push(word@) =~= before.map_values(
                |w: &str| w@,
            ) + seq![word@]);
            assert(before.map_values(|w: &str| w@) + (seq![word@] + chunk_all(
                ws.skip(t + 1),
                line_width as int,
            )) =~= (before.map_values(|w: &str| w@) + seq![word@]) + chunk_all(
                ws.skip(t + 1),
                line_width as int,
            ));
            assert forall|k: int|
                0 <= k < out@.len() implies (#[trigger] out@[k])@.len() <= line_width by {
                if k < before.len() {
                    assert(out@[k] == before[k]);
                }
            }
        }
    }
    proof {
        assert(chunk_all(ws.skip(n as int), line_width as int) =~= Seq::<Seq<char>>::empty());
        assert(out@.map_values(|w: &str| w@) + Seq::<Seq<char>>::empty() =~= out@.map_values(
            |w: &str| w@,
        ));
    }
    out
}

/// The lines of one paragraph, read from word `i` on with a partial line
/// in hand. A word that no longer fits closes the line in hand, padded
/// out to the width; the end closes it joined by single spaces.
pub open spec fn fill_rec(ws: Seq<Seq<char>>, i: int, line: Seq<Seq<char>>, width: int) -> Seq<
    Seq<char>,
>
    decreases ws.len() - i,
{
    if i < 0 || i >= ws.len() {
        if line.len() > 0 {
            seq![assemble_line(line, 1, 0, 0)]
        } else {
            Seq::empty()
        }
    } else {
        let cur = sum_from(line, 0) + line.len();
        if cur > width || ws[i].len() > width - cur {
            seq![justified_line_spec(line, width)] + fill_rec(ws, i + 1, seq![ws[i]], width)
        } else {
            fill_rec(ws, i + 1, line.push(ws[i]), width)
        }
    }
}

/// One paragraph laid out: its words, cut to the width, packed greedily
/// into lines, with a blank line after.
pub open spec fn para_lines(p: Seq<char>, width: int) -> Seq<Seq<char>> {
    fill_rec(chunk_all(words_of(p), width), 0, Seq::empty(), width) + seq![
        Seq::<char>::empty(),
    ]
}

/// Paragraphs laid out one after the other.
pub open spec fn justify_paras(ps: Seq<Seq<char>>, width: int) -> Seq<Seq<char>>
    decreases ps.len(),
{
    if ps.len() == 0 {
        Seq::empty()
    } else {
        para_lines(ps[0], width) + justify_paras(ps.skip(1), width)
    }
}

/// A whole text laid out to a width.
pub open spec fn justify_spec(s: Seq<char>, width: int) -> Seq<Seq<char>> {
    justify_paras(paragraphs_of(s), width)
}

/// A text laid out to a width: each paragraph's words are packed
/// greedily, full lines are padded to exactly the width, the last line of
/// a paragraph is joined by single spaces, and a blank line closes each
/// paragraph. No line exceeds the width.
pub fn justify(text: &str, line_width: usize) -> (r: Vec<String>)
    requires
        1 <= line_width < usize::MAX,
    ensures
        r@.map_values(|l: String| l@) == justify_spec(text@, line_width as int),
        r@.len() >= 1,
        r@[r@.len() - 1]@.len() == 0,
        forall|k: int| 0 <= k < r@.len() ==> (#[trigger] r@[k])@.len() <= line_width,
{
    let ghost wd = line_width as int;
    let paragraphs = split_paragraphs(text);
    let ghost pv = paragraphs@.map_values(|w: &str| w@);
    let mut lines: Vec<String> = Vec::new();
    let np = paragraphs.len();
    proof {
        assert(pv.skip(0) =~= pv);
        assert(lines@.map_values(|l: String| l@) + justify_paras(pv, wd) =~= justify_paras(
            pv,
            wd,
        ));
    }
    for pi in 0..np
        invariant
            1 <= line_width < usize::MAX,
            wd == line_width as int,
            np == paragraphs@.len(),
            pv == paragraphs@.map_values(|w: &str| w@),
            pv == paragraphs_of(text@),
            justify_spec(text@, wd) == lines@.map_values(|l: String| l@) + justify_paras(
                pv.skip(pi as int),
                wd,
            ),
            forall|k: int|
                0 <= k < lines@.len() ==> (#[trigger] lines@[k])@.len() <= line_width,
            pi > 0 ==> lines@.len() >= 1 && lines@[lines@.len() - 1]@.len() == 0,
    {
        let p = paragraphs[pi];
        let raw = split_words(p);
        let words = chunk_words(&raw, line_width);
        let ghost wv = words@.map_values(|x: &str| x@);
        let ghost tail = justify_paras(pv.skip(pi + 1), wd);
        let ghost blank_line = seq![Seq::<char>::empty()];
        let mut line: Vec<&str> = Vec::new();
        let mut len: usize = 0;
        let nw = words.len();
        proof {
            assert(p@ == pv[pi as int]);
            assert(pv.skip(pi as int)[0] == pv[pi as int]);
            assert(pv.skip(pi as int).skip(1) =~= pv.skip(pi + 1));
            assert(justify_paras(pv.skip(pi as int), wd) == para_lines(pv[pi as int], wd)
                + tail);
            let lv = lines@.map_values(|l: String| l@);
            let f0 = fill_rec(wv, 0, Seq::empty(), wd);
            assert(para_lines(pv[pi as int], wd) == f0 + blank_line);
            assert(lv + ((f0 + blank_line) + tail) =~= ((lv + f0) + blank_line) + tail);
            assert(line@.map_values(|x: &str| x@) =~= Seq::<Seq<char>>::empty());
        }
        for wi in 0..nw
            invariant
                1 <= line_width < usize::MAX,
                wd == line_width as int,
                nw == words@.len(),
                wv == words@.map_values(|x: &str| x@),
                tail == justify_paras(pv.skip(pi + 1), wd),
                blank_line == seq![Seq::<char>::empty()],
                justify_spec(text@, wd) == ((lines@.map_values(|l: String| l@) + fill_rec(
                    wv,
                    wi as int,
                    line@.map_values(|x: &str| x@),
                    wd,
                )) + blank_line) + tail,
                forall|k: int|
                    0 <= k < words@.len() ==> (#[trigger] words@[k])@.len() <= line_width,
                forall|k: int|
                    0 <= k < lines@.len() ==> (#[trigger] lines@[k])@.len() <= line_width,
                len == sum_from(line@.map_values(|w: &str| w@), 0) + line@.len(),
                len <= line_width + 1,
                forall|k: int|
                    0 <= k < line@.len() ==> (#[trigger] line@[k])@.len() <= line_width,
        {
            let w = words[wi];
            let wl = w.unicode_len();
            proof {
                assert(w@ == wv[wi as int]);
            }
            if len > line_width || wl > line_width - len {
                // the accumulated line cannot take this word: pad it out
                proof {
                    let ws = line@.map_values(|x: &str| x@);
                    lemma_sum_from_nonneg(ws, 0);
                    if line@.len() == 0 {
                        assert(len == 0);
                        assert(false);
                    }
                    lemma_justified_line_len(ws, line_width as int);
                    assert(fill_rec(wv, wi as int, ws, wd) == seq![
                        justified_line_spec(ws, wd),
                    ] + fill_rec(wv, wi + 1, seq![wv[wi as int]], wd));
                }
                let just = justify_line(&line, line_width);
                let ghost before = lines@;
                lines.push(just);
                proof {
                    let lv0 = before.map_values(|l: String| l@);
                    let lv1 = lines@.map_values(|l: String| l@);
                    let ws = line@.map_values(|x: &str| x@);
                    assert(lv1 =~= lv0 + seq![justified_line_spec(ws, wd)]);
                    assert(lv0 + (seq![justified_line_spec(ws, wd)] + fill_rec(
                        wv,
                        wi + 1,
                        seq![wv[wi as int]],
                        wd,
                    )) =~= lv1 + fill_rec(wv, wi + 1, seq![wv[wi as int]], wd));
                    assert forall|k: int|
                        0 <= k < lines@.len() implies (#[trigger] lines@[k])@.len()
                        <= line_width by {
                        if k < before.len() {
                            assert(lines@[k] == before[k]);
                        }
                    }
                }
                line = Vec::new();
                len = 0;
                proof {
                    assert(line@.map_values(|x: &str| x@) =~= Seq::<Seq<char>>::empty());
                }
            } else {
                proof {
                    let ws = line@.map_values(|x: &str| x@);
                    assert(fill_rec(wv, wi as int, ws, wd) == fill_rec(
                        wv,
                        wi + 1,
                        ws.push(wv[wi as int]),
                        wd,
                    ));
                }
            }
            let ghost lbefore = line@;
            line.push(w);
            len = len + wl + 1;
            proof {
                let ws0 = lbefore.map_values(|x: &str| x@);
                let ws1 = line@.map_values(|x: &str| x@);
                assert(ws1 =~= ws0.push(w@));
                lemma_sum_push(ws0, w@);
                if ws0.len() == 0 {
                    assert(ws1 =~= seq![wv[wi as int]]);
                }
                assert forall|k: int|
                    0 <= k < line@.len() implies (#[trigger] line@[k])@.len() <= line_width by {
                    if k < lbefore.len() {
                        assert(line@[k] == lbefore[k]);
                    }
                }
            }
        }
        if line.len() > 0 {
            proof {
                let ws = line@.map_values(|x: &str| x@);
                lemma_sum_from_nonneg(ws, 0);
                lemma_assemble_len(ws, 1, 0, 0);
                assert(fill_rec(wv, nw as int, ws, wd) == seq![assemble_line(ws, 1, 0, 0)]);
            }
            let joined = join_spaces(&line);
            let ghost before = lines@;
            lines.push(joined);
            proof {
                let lv0 = before.map_values(|l: String| l@);
                let lv1 = lines@.map_values(|l: String| l@);
                let ws = line@.map_values(|x: &str| x@);
                assert(lv1 =~= lv0 + seq![assemble_line(ws, 1, 0, 0)]);
                assert(lv0 + seq![assemble_line(ws, 1, 0, 0)] =~= lv0 + fill_rec(
                    wv,
                    nw as int,
                    ws,
                    wd,
                ));
                assert forall|k: int|
                    0 <= k < lines@.len() implies (#[trigger] lines@[k])@.len() <= line_width by {
                    if k < before.len() {
                        assert(lines@[k] == before[k]);
                    }
                }
            }
        } else {
            proof {
                let lv = lines@.map_values(|l: String| l@);
                let ws = line@.map_values(|x: &str| x@);
                assert(ws =~= Seq::<Seq<char>>::empty());
                assert(fill_rec(wv, nw as int, ws, wd) =~= Seq::<Seq<char>>::empty());
                assert(lv + Seq::<Seq<char>>::empty() =~= lv);
            }
        }
        let ghost before = lines@;
        let blank = String::new();
        lines.push(blank);
        proof {
            let lv0 = before.map_values(|l: String| l@);
            let lv1 = lines@.map_values(|l: String| l@);
            assert(lv1 =~= lv0 + blank_line);
            assert((lv0 + blank_line) + tail =~= lv1 + tail);
            assert forall|k: int|
                0 <= k < lines@.len() implies (#[trigger] lines@[k])@.len() <= line_width by {
                if k < before.len() {
                    assert(lines@[k] == before[k]);
                }
            }
        }
    }
    proof {
        assert(pv.skip(np as int) =~= Seq::<Seq<char>>::empty());
        assert(justify_paras(Seq::<Seq<char>>::empty(), wd) =~= Seq::<Seq<char>>::empty());
        assert(lines@.map_values(|l: String| l@) + Seq::<Seq<char>>::empty()
            =~= lines@.map_values(|l: String| l@));
    }
    lines
}

/// Appending a word to a line grows the character sum by its length.
proof fn lemma_sum_push(ws: Seq<Seq<char>>, w: Seq<char>)
    ensures
        sum_from(ws.push(w), 0) == sum_from(ws, 0) + w.len(),
    decreases ws.len(),
{
    lemma_sum_push_rec(ws, w, 0);
}

proof fn lemma_sum_push_rec(ws: Seq<Seq<char>>, w: Seq<char>, i: int)
    requires
        0 <= i <= ws.len(),
    ensures
        sum_from(ws.push(w), i) == sum_from(ws, i) + w.len(),
    decreases ws.len() - i,
{
    if i == ws.len() {
        assert(ws.push(w)[i] == w);
        assert(sum_from(ws.push(w), i) == w.len() + sum_from(ws.push(w), i + 1));
    } else {
        lemma_sum_push_rec(ws, w, i + 1);
        assert(ws.push(w)[i] == ws[i]);
    }
}

/// The lines a window takes from line `i` on: the running character
/// count (saturating at the machine's limit, as the counter does) must
/// reach `position` before lines are taken, and the window closes as soon
/// as it holds `height` lines — checked only after a line is taken, so
/// one line can slip through a zero-height window.
pub open spec fn window_rec(
    lines: Seq<Seq<char>>,
    i: int,
    sum: int,
    count: int,
    height: int,
    position: int,
) -> Seq<Seq<char>>
    decreases lines.len() - i,
{
    if i < 0 || i >= lines.len() {
        Seq::empty()
    } else {
        let sum2 = if lines[i].len() > usize::MAX - sum {
            usize::MAX as int
        } else {
            sum + lines[i].len()
        };
        let taken = sum2 >= position;
        let count2 = if taken {
            count + 1
        } else {
            count
        };
        let rest = if count2 >= height {
            Seq::empty()
        } else {
            window_rec(lines, i + 1, sum2, count2, height, position)
        };
        if taken {
            seq![lines[i]] + rest
        } else {
            rest
        }
    }
}

/// A window of a justified text: beginning at the line where the running
/// character count reaches `position`, at most `height` lines (the first
/// window line still slips through when `height` is zero, as the cut is
/// only checked after a line is taken).
pub fn get_lines(text: &str, line_width: usize, height: usize, position: usize) -> (r: Vec<
    String,
>)
    requires
        1 <= line_width < usize::MAX,
    ensures
        r@.map_values(|l: String| l@) == window_rec(
            justify_spec(text@, line_width as int),
            0,
            0,
            0,
            height as int,
            position as int,
        ),
        r@.len() <= (if height == 0 {
            1int
        } else {
            height as int
        }),
        forall|k: int| 0 <= k < r@.len() ==> (#[trigger] r@[k])@.len() <= line_width,
{
    let lines = justify(text, line_width);
    let ghost lv = lines@.map_values(|l: String| l@);
    let ghost full = window_rec(lv, 0, 0, 0, height as int, position as int);
    let mut out: Vec<String> = Vec::new();
    let mut sum: usize = 0;
    let n = lines.len();
    proof {
        assert(out@.map_values(|l: String| l@) + full =~= full);
    }
    for i in 0..n
        invariant
            n == lines@.len(),
            lv == lines@.map_values(|l: String| l@),
            lv == justify_spec(text@, line_width as int),
            full == window_rec(lv, 0, 0, 0, height as int, position as int),
            full == out@.map_values(|l: String| l@) + window_rec(
                lv,
                i as int,
                sum as int,
                out@.len() as int,
                height as int,
                position as int,
            ),
            forall|k: int|
                0 <= k < lines@.len() ==> (#[trigger] lines@[k])@.len() <= line_width,
            forall|k: int| 0 <= k < out@.len() ==> (#[trigger] out@[k])@.len() <= line_width,
            out@.len() < height || (height == 0 && out@.len() == 0 && i == 0),
    {
        let c = lines[i].as_str().unicode_len();
        let ghost sum0 = sum as int;
        let ghost count0 = out@.len() as int;
        let ghost ov0 = out@.map_values(|l: String| l@);
        proof {
            assert(lv[i as int] == lines@[i as int]@);
        }
        sum = if c > usize::MAX - sum {
            usize::MAX
        } else {
            sum + c
        };
        if sum >= position {
            let ghost before = out@;
            out.push(lines[i].clone());
            proof {
                let ov0 = before.map_values(|l: String| l@);
                let ov1 = out@.map_values(|l: String| l@);
                assert(ov1 =~= ov0 + seq![lv[i as int]]);
                assert(ov0 + (seq![lv[i as int]] + window_rec(
                    lv,
                    i + 1,
                    sum as int,
                    out@.len() as int,
                    height as int,
                    position as int,
                )) =~= ov1 + window_rec(
                    lv,
                    i + 1,
                    sum as int,
                    out@.len() as int,
                    height as int,
                    position as int,
                ));
                assert forall|k: int|
                    0 <= k < out@.len() implies (#[trigger] out@[k])@.len() <= line_width by {
                    if k < before.len() {
                        assert(out@[k] == before[k]);
                    } else {
                        assert(out@[k]@ == lines@[i as int]@);
                    }
                }
            }
        }
        if out.len() >= height {
            proof {
                let ov = out@.map_values(|l: String| l@);
                assert(window_rec(lv, i as int, sum0, count0, height as int, position as int)
                    == (if sum as int >= position as int {
                    seq![lv[i as int]]
                } else {
                    Seq::<Seq<char>>::empty()
                }));
                if sum >= position {
                    assert(ov =~= ov0 + seq![lv[i as int]]);
                } else {
                    assert(ov0 + Seq::<Seq<char>>::empty() =~= ov);
                }
            }
            return out;
        }
    }
    proof {
        let ov = out@.map_values(|l: String| l@);
        assert(window_rec(lv, n as int, sum as int, out@.len() as int, height as int,
            position as int) =~= Seq::<Seq<char>>::empty());
        assert(ov + Seq::<Seq<char>>::empty() =~= ov);
    }
    out
}

} // verus!
