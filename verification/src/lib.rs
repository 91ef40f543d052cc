//! Resolution of phonetic readings ("furigana") for Japanese text.
//!
//! Given an orthographic string, its full phonetic reading, and a dictionary
//! of candidate readings per ideograph, the library decides which candidate
//! reading each character contributed, so that the chosen readings
//! concatenate to the phonetic string exactly.

use std::collections::HashMap;
use vstd::prelude::*;

pub mod series_parser;
pub mod string_parser;
pub mod word_parser;

use crate::word_parser::MatchFailure;

verus! {

broadcast use vstd::std_specs::hash::group_hash_axioms;

/// One resolved unit of the output: an ideograph with the reading chosen for
/// it, or any other character standing for itself.
#[derive(Debug, Clone, PartialEq, Eq)]
pub enum Furigana {
    Kanji { character: char, reading: String },
    Other(char),
}

/// The characters a resolved unit contributes to the written form.
pub open spec fn writing_of(f: Furigana) -> Seq<char> {
    match f {
        Furigana::Kanji { character, .. } => seq![character],
        Furigana::Other(c) => seq![c],
    }
}

/// The characters a resolved unit contributes to the phonetic form.
pub open spec fn reading_of(f: Furigana) -> Seq<char> {
    match f {
        Furigana::Kanji { reading, .. } => reading@,
        Furigana::Other(c) => seq![c],
    }
}

/// Concatenation of the written forms of a sequence of resolved units.
pub open spec fn writing_cat(s: Seq<Furigana>) -> Seq<char>
    decreases s.len(),
{
    if s.len() == 0 {
        Seq::empty()
    } else {
        writing_of(s[0]) + writing_cat(s.drop_first())
    }
}

/// Concatenation of the phonetic forms of a sequence of resolved units.
pub open spec fn reading_cat(s: Seq<Furigana>) -> Seq<char>
    decreases s.len(),
{
    if s.len() == 0 {
        Seq::empty()
    } else {
        reading_of(s[0]) + reading_cat(s.drop_first())
    }
}

/// Relies on String::push: appends the character at the end of the string.
#[verifier::external_body]
fn push_char(s: &mut String, c: char)
    ensures
        final(s)@ == old(s)@.push(c),
{
    s.push(c)
}

/// A one-character string.
fn char_to_string(c: char) -> (r: String)
    ensures
        r@ == seq![c],
{
    let mut s = String::new();
    push_char(&mut s, c);
    proof {
        assert(s@ =~= seq![c]);
    }
    s
}

/// A CJK unified ideograph, as the external classifier recognises it.
pub open spec fn spec_is_kanji(c: char) -> bool {
    0x4E00 <= c as u32 && c as u32 <= 0x9FAF
}

/// A character eligible for dictionary readings: an ideograph, or the
/// ideographic iteration mark that repeats the preceding one.
pub open spec fn is_annotatable(c: char) -> bool {
    spec_is_kanji(c) || c == '\u{3005}'
}

/// Relies on wana_kana::utils::is_char_kanji: it returns whether the
/// character lies in the CJK unified ideograph range 0x4E00..=0x9FAF.
#[verifier::external_body]
fn is_char_kanji(c: char) -> (r: bool)
    ensures
        r == spec_is_kanji(c),
{
    wana_kana::utils::is_char_kanji(c)
}

/// Whether the character may carry a dictionary reading.
fn is_annotatable_char(c: char) -> (r: bool)
    ensures
        r == is_annotatable(c),
{
    is_char_kanji(c) || c == '\u{3005}'
}

impl Furigana {
    /// The written form of this unit: the character itself.
    pub fn to_writing(&self) -> (r: String)
        ensures
            r@ == writing_of(*self),
    {
        match self {
            Furigana::Kanji { character, .. } => char_to_string(*character),
            Furigana::Other(c) => char_to_string(*c),
        }
    }

    /// The phonetic form of this unit: the chosen reading, or the character
    /// itself when it stands for itself.
    pub fn to_reading(&self) -> (r: String)
        ensures
            r@ == reading_of(*self),
    {
        match self {
            Furigana::Kanji { reading, .. } => reading.clone(),
            Furigana::Other(c) => char_to_string(*c),
        }
    }
}

/// Appending one unit appends its written form.
proof fn lemma_writing_cat_push(s: Seq<Furigana>, f: Furigana)
    ensures
        writing_cat(s.push(f)) == writing_cat(s) + writing_of(f),
    decreases s.len(),
{
    if s.len() == 0 {
        assert(s.push(f)[0] == f);
        assert(s.push(f).drop_first() =~= Seq::<Furigana>::empty());
        assert(writing_cat(s.push(f)) == writing_of(f) + writing_cat(
            Seq::<Furigana>::empty(),
        ));
        assert(writing_of(f) + Seq::<char>::empty() =~= Seq::<char>::empty() + writing_of(f));
    } else {
        assert(s.push(f)[0] == s[0]);
        assert(s.push(f).drop_first() =~= s.drop_first().push(f));
        lemma_writing_cat_push(s.drop_first(), f);
        assert(writing_of(s[0]) + (writing_cat(s.drop_first()) + writing_of(f)) =~= (writing_of(
            s[0],
        ) + writing_cat(s.drop_first())) + writing_of(f));
    }
}

/// Appending one unit appends its phonetic form.
proof fn lemma_reading_cat_push(s: Seq<Furigana>, f: Furigana)
    ensures
        reading_cat(s.push(f)) == reading_cat(s) + reading_of(f),
    decreases s.len(),
{
    if s.len() == 0 {
        assert(s.push(f)[0] == f);
        assert(s.push(f).drop_first() =~= Seq::<Furigana>::empty());
        assert(reading_cat(s.push(f)) == reading_of(f) + reading_cat(
            Seq::<Furigana>::empty(),
        ));
        assert(reading_of(f) + Seq::<char>::empty() =~= Seq::<char>::empty() + reading_of(f));
    } else {
        assert(s.push(f)[0] == s[0]);
        assert(s.push(f).drop_first() =~= s.drop_first().push(f));
        lemma_reading_cat_push(s.drop_first(), f);
        assert(reading_of(s[0]) + (reading_cat(s.drop_first()) + reading_of(f)) =~= (reading_of(
            s[0],
        ) + reading_cat(s.drop_first())) + reading_of(f));
    }
}

/// The resolved units of one word, in order.
#[derive(Debug, Clone, PartialEq, Eq)]
pub struct FuriganaString(Vec<Furigana>);

impl View for FuriganaString {
    type V = Seq<Furigana>;

    closed spec fn view(&self) -> Seq<Furigana> {
        self.0@
    }
}

impl FuriganaString {
    /// The written word: the written forms of the units, concatenated.
    pub fn to_writing(&self) -> (r: String)
        ensures
            r@ == writing_cat(self@),
    {
        let mut out = String::new();
        let mut i: usize = 0;
        while i < self.0.len()
            invariant
                0 <= i <= self.0@.len(),
                out@ == writing_cat(self.0@.take(i as int)),
            decreases self.0@.len() - i,
        {
            let f = &self.0[i];
            let w = f.to_writing();
            out.append(w.as_str());
            proof {
                lemma_writing_cat_push(self.0@.take(i as int), self.0@[i as int]);
                assert(self.0@.take(i as int).push(self.0@[i as int]) =~= self.0@.take(i + 1));
            }
            i = i + 1;
        }
        proof {
            assert(self.0@.take(self.0@.len() as int) =~= self.0@);
        }
        out
    }

    /// The phonetic word: the phonetic forms of the units, concatenated.
    pub fn to_reading(&self) -> (r: String)
        ensures
            r@ == reading_cat(self@),
    {
        let mut out = String::new();
        let mut i: usize = 0;
        while i < self.0.len()
            invariant
                0 <= i <= self.0@.len(),
                out@ == reading_cat(self.0@.take(i as int)),
            decreases self.0@.len() - i,
        {
            let f = &self.0[i];
            let w = f.to_reading();
            out.append(w.as_str());
            proof {
                lemma_reading_cat_push(self.0@.take(i as int), self.0@[i as int]);
                assert(self.0@.take(i as int).push(self.0@[i as int]) =~= self.0@.take(i + 1));
            }
            i = i + 1;
        }
        proof {
            assert(self.0@.take(self.0@.len() as int) =~= self.0@);
        }
        out
    }

    /// The resolved units as a plain vector.
    pub fn to_vec(&self) -> (r: Vec<Furigana>)
        ensures
            r@ == self@,
    {
        let mut r: Vec<Furigana> = Vec::new();
        let mut i: usize = 0;
        while i < self.0.len()
            invariant
                0 <= i <= self.0@.len(),
                r@ =~= self.0@.take(i as int),
            decreases self.0@.len() - i,
        {
            let f = match &self.0[i] {
                Furigana::Kanji { character, reading } => Furigana::Kanji {
                    character: *character,
                    reading: reading.clone(),
                },
                Furigana::Other(c) => Furigana::Other(*c),
            };
            r.push(f);
            proof {
                assert(r@ =~= self.0@.take(i + 1));
            }
            i = i + 1;
        }
        proof {
            assert(self.0@.take(self.0@.len() as int) =~= self.0@);
        }
        r
    }
}

/// The segment sequence built for an input word: an annotatable character
/// with an entry in the dictionary gets that entry's readings as candidates;
/// every other character gets exactly its own one-character string.
pub open spec fn segments_spec(input: Seq<char>, dict: Map<u32, Vec<String>>) -> Seq<
    (char, Seq<Seq<char>>),
> {
    Seq::new(
        input.len(),
        |i: int|
            {
                let c = input[i];
                if is_annotatable(c) && dict.contains_key(c as u32) {
                    (c, dict[c as u32].deep_view())
                } else {
                    (c, seq![seq![c]])
                }
            },
    )
}

/// A copy of one segment's candidate readings.
fn clone_readings(v: &Vec<String>) -> (r: Vec<String>)
    ensures
        r@ == v@,
{
    let mut r: Vec<String> = Vec::new();
    let mut i: usize = 0;
    while i < v.len()
        invariant
            0 <= i <= v@.len(),
            r@ =~= v@.take(i as int),
        decreases v@.len() - i,
    {
        r.push(v[i].clone());
        proof {
            assert(r@ =~= v@.take(i + 1));
        }
        i = i + 1;
    }
    proof {
        assert(v@.take(v@.len() as int) =~= v@);
    }
    r
}

/// Builds the segment sequence for a word: each character paired with its
/// ordered candidate readings, dictionary entries for annotatable characters
/// and exact pass-through for all others.
pub fn furigana_parser(input: &String, kanji_readings: &HashMap<u32, Vec<String>>) -> (r: Vec<
    (char, Vec<String>),
>)
    ensures
        r.deep_view() == segments_spec(input@, kanji_readings@),
{
    let n = input.as_str().unicode_len();
    let ghost segs = segments_spec(input@, kanji_readings@);
    let mut pairs: Vec<(char, Vec<String>)> = Vec::new();
    let mut i: usize = 0;
    while i < n
        invariant
            n == input@.len(),
            0 <= i <= n,
            pairs@.len() == i,
            segs == segments_spec(input@, kanji_readings@),
            pairs.deep_view() =~= segs.take(i as int),
        decreases n - i,
    {
        let c = input.as_str().get_char(i);
        if is_annotatable_char(c) && kanji_readings.contains_key(&(c as u32)) {
            let readings = match kanji_readings.get(&(c as u32)) {
                Some(readings) => clone_readings(readings),
                None => Vec::new(),
            };
            let entry = (c, readings);
            let ghost ed = entry.deep_view();
            pairs.push(entry);
            proof {
                assert(ed == segs[i as int]);
                assert(pairs.deep_view() =~= segs.take(i + 1));
            }
        } else {
            let mut singleton: Vec<String> = Vec::new();
            singleton.push(char_to_string(c));
            let entry = (c, singleton);
            let ghost ed = entry.deep_view();
            pairs.push(entry);
            proof {
                assert(ed.1 =~= seq![seq![c]]);
                assert(ed == segs[i as int]);
                assert(pairs.deep_view() =~= segs.take(i + 1));
            }
        }
        i = i + 1;
    }
    proof {
        assert(segs.take(segs.len() as int) =~= segs);
    }
    pairs
}

/// Each resolved unit reflects its assignment entry: an annotatable anchor
/// becomes an ideograph unit carrying the chosen reading, every other
/// anchor stands for itself.
pub open spec fn resolved_matches(items: Seq<Furigana>, asn: Seq<(char, Seq<char>)>) -> bool {
    &&& items.len() == asn.len()
    &&& forall|k: int|
        0 <= k < items.len() ==> {
            let c = (#[trigger] asn[k]).0;
            if is_annotatable(c) {
                &&& items[k] matches Furigana::Kanji { character, reading }
                &&& items[k]->Kanji_character == c
                &&& items[k]->Kanji_reading@ == asn[k].1
            } else {
                items[k] == Furigana::Other(c)
            }
        }
}

/// Units whose written forms are single characters concatenate to exactly
/// those characters.
proof fn lemma_writing_cat_chars(items: Seq<Furigana>, cs: Seq<char>)
    requires
        items.len() == cs.len(),
        forall|k: int| 0 <= k < items.len() ==> writing_of(#[trigger] items[k]) == seq![cs[k]],
    ensures
        writing_cat(items) == cs,
    decreases items.len(),
{
    if items.len() == 0 {
        assert(writing_cat(items) =~= cs);
    } else {
        assert forall|k: int|
            0 <= k < items.drop_first().len() implies writing_of(
            #[trigger] items.drop_first()[k],
        ) == seq![cs.drop_first()[k]] by {
            assert(items.drop_first()[k] == items[k + 1]);
        }
        lemma_writing_cat_chars(items.drop_first(), cs.drop_first());
        assert(writing_of(items[0]) == seq![cs[0]]);
        assert(seq![cs[0]] + cs.drop_first() =~= cs);
    }
}

/// Units whose phonetic forms follow an assignment concatenate to exactly
/// what the assignment's readings concatenate to.
proof fn lemma_reading_cat_assign(items: Seq<Furigana>, asn: Seq<(char, Seq<char>)>)
    requires
        items.len() == asn.len(),
        forall|k: int| 0 <= k < items.len() ==> reading_of(#[trigger] items[k]) == asn[k].1,
    ensures
        reading_cat(items) == word_parser::cat_readings(asn),
    decreases items.len(),
{
    if items.len() == 0 {
        assert(reading_cat(items) =~= word_parser::cat_readings(asn));
    } else {
        assert forall|k: int|
            0 <= k < items.drop_first().len() implies reading_of(
            #[trigger] items.drop_first()[k],
        ) == asn.drop_first()[k].1 by {
            assert(items.drop_first()[k] == items[k + 1]);
            assert(asn.drop_first()[k] == asn[k + 1]);
        }
        lemma_reading_cat_assign(items.drop_first(), asn.drop_first());
    }
}

/// Resolves the phonetic reading of a word against the dictionary. On
/// success the result holds one unit per character of the word; the units'
/// written forms concatenate back to the word and their phonetic forms
/// concatenate to exactly the given reading. Failure means no assignment of
/// candidate readings can reproduce the reading, and reports where the
/// search bottomed out.
pub fn parse_furigana(
    input: &String,
    reading: &String,
    kanji_readings: &HashMap<u32, Vec<String>>,
) -> (r: Result<FuriganaString, MatchFailure>)
    ensures
        ({
            let segs = segments_spec(input@, kanji_readings@);
            let outcome = word_parser::word_search(segs, reading@);
            match r {
                Ok(fs) => {
                    &&& outcome is Ok
                    &&& resolved_matches(fs@, outcome->Ok_0)
                    &&& word_parser::valid_assignment(segs, reading@, outcome->Ok_0)
                    &&& writing_cat(fs@) == input@
                    &&& reading_cat(fs@) == reading@
                },
                Err(f) => {
                    &&& outcome is Err
                    &&& f.segment as int == outcome->Err_0.0
                    &&& f.position as int == outcome->Err_0.1
                    &&& forall|asn: Seq<(char, Seq<char>)>|
                        !word_parser::valid_assignment(segs, reading@, asn)
                },
            }
        }),
{
    let ghost segs = segments_spec(input@, kanji_readings@);
    let segments = furigana_parser(input, kanji_readings);
    match word_parser::word_parser(segments, reading) {
        Ok(v) => {
            let ghost asn = v.deep_view();
            let mut items: Vec<Furigana> = Vec::new();
            let mut i: usize = 0;
            while i < v.len()
                invariant
                    0 <= i <= v@.len(),
                    asn == v.deep_view(),
                    items@.len() == i,
                    forall|k: int|
                        0 <= k < i ==> {
                            let c = (#[trigger] asn[k]).0;
                            if is_annotatable(c) {
                                &&& items@[k] matches Furigana::Kanji { character, reading }
                                &&& items@[k]->Kanji_character == c
                                &&& items@[k]->Kanji_reading@ == asn[k].1
                            } else {
                                items@[k] == Furigana::Other(c)
                            }
                        },
                decreases v@.len() - i,
            {
                let c = pair_char(&v, i);
                proof {
                    assert(asn[i as int] == (v@[i as int].0, v@[i as int].1@));
                }
                if is_annotatable_char(c) {
                    let s = pair_reading(&v, i);
                    let f = Furigana::Kanji { character: c, reading: s };
                    items.push(f);
                } else {
                    items.push(Furigana::Other(c));
                }
                i = i + 1;
            }
            proof {
                word_parser::lemma_round_trip(segs, reading@, asn);
                assert forall|k: int|
                    0 <= k < items@.len() implies writing_of(#[trigger] items@[k]) == seq![
                    input@[k],
                ] by {
                    assert(asn[k].0 == segs[k].0);
                    assert(segs[k].0 == input@[k]);
                }
                lemma_writing_cat_chars(items@, input@);
                assert forall|k: int|
                    0 <= k < items@.len() implies reading_of(#[trigger] items@[k]) == asn[k].1 by {
                    let c = asn[k].0;
                    if !is_annotatable(c) {
                        assert(segs[k].1 == seq![seq![c]]);
                        word_parser::lemma_literal_passthrough(segs, reading@, asn, k);
                    }
                }
                lemma_reading_cat_assign(items@, asn);
            }
            Ok(FuriganaString(items))
        },
        Err(f) => Err(f),
    }
}

/// The anchor character of one resolved pair.
fn pair_char(v: &Vec<(char, String)>, i: usize) -> (c: char)
    requires
        i < v@.len(),
    ensures
        c == v@[i as int].0,
{
    v[i].0
}

/// A copy of the chosen reading of one resolved pair.
fn pair_reading(v: &Vec<(char, String)>, i: usize) -> (r: String)
    requires
        i < v@.len(),
    ensures
        r == v@[i as int].1,
{
    v[i].1.clone()
}

} // verus!
