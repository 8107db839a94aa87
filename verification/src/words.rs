use std::collections::HashMap;
use vstd::pervasive::VecAdditionalExecFns;
use vstd::prelude::*;
use vstd::string::StringExecFns;

use crate::text::chars_to_string;
use crate::text::lower_of;
use crate::text::lowercase;
use crate::text::str_eq;
use crate::text::string_to_chars;
use crate::text::trim_spec;
use crate::text::trimmed;
use crate::text::u32_to_char;
use crate::text::valid_char_value;

verus! {

broadcast use vstd::std_specs::hash::group_hash_axioms;

/// The spreadsheet column that holds the part-of-speech tag of a row.
pub const POS_IDX: usize = 1;

/// The grammatical category of a catalog word.
#[derive(Debug, Clone, Copy, PartialEq, Eq, Structural)]
pub enum PartOfSpeech {
    Noun,
    Verb,
    Adjective,
    Adverb,
    Preposition,
}

impl PartOfSpeech {
    /// Every part of speech, in a fixed order.
    pub fn all() -> (r: Vec<PartOfSpeech>)
        ensures
            r@ =~= seq![
                PartOfSpeech::Noun,
                PartOfSpeech::Verb,
                PartOfSpeech::Adjective,
                PartOfSpeech::Adverb,
                PartOfSpeech::Preposition,
            ],
    {
        let mut v: Vec<PartOfSpeech> = Vec::new();
        v.push(PartOfSpeech::Noun);
        v.push(PartOfSpeech::Verb);
        v.push(PartOfSpeech::Adjective);
        v.push(PartOfSpeech::Adverb);
        v.push(PartOfSpeech::Preposition);
        v
    }
}

/// How one character is rewritten when umlauts and sharp s are spelled
/// out with plain letters.
pub open spec fn umlaut_expand(c: char) -> Seq<char> {
    if c == 'ü' {
        seq!['u', 'e']
    } else if c == 'ä' {
        seq!['a', 'e']
    } else if c == 'ö' {
        seq!['o', 'e']
    } else if c == 'ß' {
        seq!['s', 's']
    } else {
        seq![c]
    }
}

/// The text with every umlaut and sharp s spelled out with plain letters.
pub open spec fn umlaut_normalize_spec(s: Seq<char>) -> Seq<char>
    decreases s.len(),
{
    if s.len() == 0 {
        Seq::empty()
    } else {
        umlaut_normalize_spec(s.drop_last()) + umlaut_expand(s.last())
    }
}

/// Spell out umlauts and sharp s with plain letters, so that an answer
/// typed without them still counts.
pub fn umlaut_normalize(word: &str) -> (r: String)
    ensures
        r@ == umlaut_normalize_spec(word@),
{
    let cs = string_to_chars(word);
    let mut out: Vec<char> = Vec::new();
    let mut i: usize = 0;
    while i < cs.len()
        invariant
            i <= cs@.len(),
            cs@ == word@,
            out@ == umlaut_normalize_spec(word@.take(i as int)),
        decreases cs@.len() - i,
    {
        let c = cs[i];
        if c == 'ü' {
            out.push('u');
            out.push('e');
        } else if c == 'ä' {
            out.push('a');
            out.push('e');
        } else if c == 'ö' {
            out.push('o');
            out.push('e');
        } else if c == 'ß' {
            out.push('s');
            out.push('s');
        } else {
            out.push(c);
        }
        proof {
            let t = word@.take(i + 1);
            assert(t.drop_last() =~= word@.take(i as int));
            assert(t.last() == word@[i as int]);
            assert(out@ =~= umlaut_normalize_spec(word@.take(i as int)) + umlaut_expand(
                word@[i as int],
            ));
        }
        i += 1;
    }
    proof {
        assert(word@.take(word@.len() as int) =~= word@);
    }
    chars_to_string(&out)
}

/// Whether a lowercased answer matches a lowercased expected spelling,
/// either exactly or with umlauts spelled out.
pub open spec fn spelling_matches(answer: Seq<char>, expected: Seq<char>) -> bool {
    answer == expected || answer == umlaut_normalize_spec(expected)
}

/// Compare an answer with the expected spelling after both have already
/// been lowercased.
pub fn check_spelling_folded(low_answer: &str, low_expected: &str) -> (r: bool)
    ensures
        r == spelling_matches(low_answer@, low_expected@),
{
    if str_eq(low_answer, low_expected) {
        true
    } else {
        let norm = umlaut_normalize(low_expected);
        str_eq(low_answer, norm.as_str())
    }
}

/// Whether the answer spells the expected word, ignoring case and
/// accepting spelled-out umlauts.
pub fn check_spelling_simple(answer: &str, expected: &str) -> (r: bool)
    ensures
        r == spelling_matches(lower_of(answer@), lower_of(expected@)),
{
    let low_ans = lowercase(answer);
    let spelling = lowercase(expected);
    check_spelling_folded(low_ans.as_str(), spelling.as_str())
}

/// The article placed before a German noun.
#[derive(Debug, Clone, Copy, PartialEq, Eq, Structural)]
pub enum NounArticle {
    Der,
    Das,
    Die,
    Plural,
}

/// The text of an article.
pub open spec fn article_str(a: NounArticle) -> Seq<char> {
    match a {
        NounArticle::Der => "der"@,
        NounArticle::Die => "die"@,
        NounArticle::Das => "das"@,
        NounArticle::Plural => "die"@,
    }
}

/// The text offered as an answer option for an article.
pub open spec fn article_answer_str(a: NounArticle) -> Seq<char> {
    match a {
        NounArticle::Plural => "die (plural)"@,
        _ => article_str(a),
    }
}

impl NounArticle {
    pub fn to_string(&self) -> (r: String)
        ensures
            r@ == article_str(*self),
    {
        match self {
            NounArticle::Der => "der",
            NounArticle::Die => "die",
            NounArticle::Das => "das",
            NounArticle::Plural => "die",
        }.to_owned()
    }

    pub fn to_answer_buller(&self) -> (r: String)
        ensures
            r@ == article_answer_str(*self),
    {
        match self {
            NounArticle::Plural => "die (plural)".to_owned(),
            _ => self.to_string(),
        }
    }

    /// Every article, in the order the article quiz offers them.
    pub fn all() -> (r: Vec<NounArticle>)
        ensures
            r@ =~= seq![
                NounArticle::Der,
                NounArticle::Das,
                NounArticle::Die,
                NounArticle::Plural,
            ],
    {
        let mut v: Vec<NounArticle> = Vec::new();
        v.push(NounArticle::Der);
        v.push(NounArticle::Das);
        v.push(NounArticle::Die);
        v.push(NounArticle::Plural);
        v
    }
}

/// The article denoted by a catalog cell.
pub open spec fn article_of(s: Seq<char>) -> Option<NounArticle> {
    if s == "der"@ {
        Some(NounArticle::Der)
    } else if s == "das"@ {
        Some(NounArticle::Das)
    } else if s == "die"@ {
        Some(NounArticle::Die)
    } else if s == "pl"@ {
        Some(NounArticle::Plural)
    } else {
        None
    }
}

/// Read an article from its catalog spelling.
pub fn get_article(s: &str) -> (r: Option<NounArticle>)
    ensures
        r == article_of(s@),
{
    if str_eq(s, "der") {
        Some(NounArticle::Der)
    } else if str_eq(s, "das") {
        Some(NounArticle::Das)
    } else if str_eq(s, "die") {
        Some(NounArticle::Die)
    } else if str_eq(s, "pl") {
        Some(NounArticle::Plural)
    } else {
        None
    }
}

/// A lowercase ASCII letter turned upper case; any other character kept.
pub open spec fn upper_char(c: char) -> char {
    if 'a' <= c && c <= 'z' {
        ((c as u32) - 32) as char
    } else {
        c
    }
}

/// The text with its first character capitalized.
pub open spec fn capitalize_spec(s: Seq<char>) -> Seq<char>
    recommends
        s.len() > 0,
{
    seq![upper_char(s[0])] + s.skip(1)
}

/// Capitalize the first letter of a noun, as German spelling asks.
pub fn capitalize_noun(noun: &str) -> (r: String)
    requires
        noun@.len() > 0,
    ensures
        r@ == capitalize_spec(noun@),
{
    let mut cs = string_to_chars(noun);
    let c = cs[0];
    let cu = c as u32;
    if cu >= 97 && cu <= 122 {
        let up = match u32_to_char(cu - 32) {
            Some(u) => u,
            None => {
                proof {
                    assert(valid_char_value((cu - 32) as u32));
                    assert(false);
                }
                c
            },
        };
        proof {
            vstd::utf8::char_u32_cast(up, (cu - 32) as u32);
            assert(up == upper_char(c));
        }
        cs.set(0, up);
    }
    proof {
        assert(cs@ =~= capitalize_spec(noun@));
    }
    chars_to_string(&cs)
}

/// The part-of-speech cell of a catalog row, the row given as a map from
/// column index to cell text.
pub fn get_part_of_speech(map: &HashMap<usize, String>) -> (r: &str)
    requires
        map@.contains_key(POS_IDX),
    ensures
        r@ == map@[POS_IDX]@,
{
    match map.get(&POS_IDX) {
        Some(s) => s.as_str(),
        None => {
            proof {
                assert(false);
            }
            ""
        },
    }
}

/// The auxiliary verb a verb builds its perfect tense with.
#[derive(Debug, Clone, Copy, PartialEq, Eq, Structural)]
pub enum PerfectVerb {
    Haben,
    Sein,
    Both,
}

/// The auxiliary verb denoted by a trimmed catalog cell.
pub open spec fn perfect_verb_of(t: Seq<char>) -> Option<PerfectVerb> {
    if t == "hat"@ {
        Some(PerfectVerb::Haben)
    } else if t == "ist"@ {
        Some(PerfectVerb::Sein)
    } else if t == "hat/ist"@ {
        Some(PerfectVerb::Both)
    } else {
        None
    }
}

/// Whether a catalog cell is one this crate reads an auxiliary verb from:
/// empty cells mean that none is recorded.
pub open spec fn perfect_verb_input_ok(t: Seq<char>) -> bool {
    ||| trim_spec(t) == "hat"@
    ||| trim_spec(t) == "ist"@
    ||| trim_spec(t) == "hat/ist"@
    ||| trim_spec(t).len() == 0
}

impl PerfectVerb {
    pub fn from(s: &str) -> (r: Option<PerfectVerb>)
        requires
            perfect_verb_input_ok(s@),
        ensures
            r == perfect_verb_of(trim_spec(s@)),
    {
        let t = trimmed(s);
        if str_eq(t.as_str(), "hat") {
            Some(PerfectVerb::Haben)
        } else if str_eq(t.as_str(), "ist") {
            Some(PerfectVerb::Sein)
        } else if str_eq(t.as_str(), "hat/ist") {
            Some(PerfectVerb::Both)
        } else {
            None
        }
    }

    pub fn from_option(s: Option<String>) -> (r: Option<PerfectVerb>)
        requires
            s is Some ==> perfect_verb_input_ok(s->0@),
        ensures
            r == match s {
                None => None::<PerfectVerb>,
                Some(t) => perfect_verb_of(trim_spec(t@)),
            },
    {
        match s {
            None => None,
            Some(t) => Self::from(t.as_str()),
        }
    }
}

/// The fields every kind of word shares.
#[derive(Debug)]
pub struct WordCommon {
    pub word: String,
    pub group_id: usize,
    pub translation: String,
    pub help: String,
}

impl WordCommon {
    pub fn new(word: String, group_id: usize, translation: String, help: String) -> (r: Self)
        ensures
            r.word == word,
            r.group_id == group_id,
            r.translation == translation,
            r.help == help,
    {
        WordCommon { word, group_id, translation, help }
    }

    pub fn translation(&self) -> (r: &str)
        ensures
            r@ == self.translation@,
    {
        self.translation.as_str()
    }

    pub fn get_word(&self) -> (r: &str)
        ensures
            r@ == self.word@,
    {
        self.word.as_str()
    }

    pub fn get_help(&self) -> (r: &str)
        ensures
            r@ == self.help@,
    {
        self.help.as_str()
    }

    pub fn get_group_id(&self) -> (r: usize)
        ensures
            r == self.group_id,
    {
        self.group_id
    }
}

/// The spelling under which a noun is quizzed: its article and the
/// capitalized noun.
pub open spec fn noun_spelling_spec(article: NounArticle, word: Seq<char>) -> Seq<char>
    recommends
        word.len() > 0,
{
    article_str(article) + " "@ + capitalize_spec(word)
}

#[derive(Debug)]
pub struct Noun {
    pub common: WordCommon,
    pub article: NounArticle,
}

impl Noun {
    pub fn new(common: WordCommon, article: NounArticle) -> (r: Self)
        ensures
            r.common == common,
            r.article == article,
    {
        Noun { common, article }
    }

    pub fn spelling(&self) -> (r: String)
        requires
            self.common.word@.len() > 0,
        ensures
            r@ == noun_spelling_spec(self.article, self.common.word@),
    {
        let cap = capitalize_noun(self.common.word.as_str());
        self.article.to_string().concat(" ").concat(cap.as_str())
    }
}

#[derive(Debug)]
pub struct Verb {
    pub common: WordCommon,
    pub praeteritum: String,
    pub perfect: String,
    pub perfect_verb: Option<PerfectVerb>,
    pub present_third: String,
}

impl Verb {
    pub fn new(
        common: WordCommon,
        praeteritum: String,
        perfect: String,
        perfect_verb: Option<PerfectVerb>,
        present_third: String,
    ) -> (r: Self)
        ensures
            r.common == common,
            r.praeteritum == praeteritum,
            r.perfect == perfect,
            r.perfect_verb == perfect_verb,
            r.present_third == present_third,
    {
        Verb { common, praeteritum, perfect, perfect_verb, present_third }
    }
}

#[derive(Debug)]
pub struct Adjective {
    pub common: WordCommon,
}

impl Adjective {
    pub fn new(common: WordCommon) -> (r: Self)
        ensures
            r.common == common,
    {
        Adjective { common }
    }
}

#[derive(Debug)]
pub struct Adverb {
    pub common: WordCommon,
}

impl Adverb {
    pub fn new(common: WordCommon) -> (r: Self)
        ensures
            r.common == common,
    {
        Adverb { common }
    }
}

#[derive(Debug)]
pub struct Preposition {
    pub common: WordCommon,
}

impl Preposition {
    pub fn new(common: WordCommon) -> (r: Self)
        ensures
            r.common == common,
    {
        Preposition { common }
    }
}

/// A catalog word of any part of speech, with its variant-specific fields.
#[derive(Debug)]
pub enum WordRecord {
    Noun(Noun),
    Verb(Verb),
    Adjective(Adjective),
    Adverb(Adverb),
    Preposition(Preposition),
}

/// The display name of a part of speech.
pub open spec fn pos_str_spec(p: PartOfSpeech) -> Seq<char> {
    match p {
        PartOfSpeech::Noun => "noun"@,
        PartOfSpeech::Verb => "verb"@,
        PartOfSpeech::Adjective => "adj"@,
        PartOfSpeech::Adverb => "adv"@,
        PartOfSpeech::Preposition => "preposition"@,
    }
}

impl WordRecord {
    /// The shared fields of this word.
    pub open spec fn common_of(self) -> WordCommon {
        match self {
            WordRecord::Noun(n) => n.common,
            WordRecord::Verb(v) => v.common,
            WordRecord::Adjective(a) => a.common,
            WordRecord::Adverb(a) => a.common,
            WordRecord::Preposition(p) => p.common,
        }
    }

    /// The identifier of this word.
    pub open spec fn word_spec(self) -> Seq<char> {
        self.common_of().word@
    }

    pub open spec fn pos_spec(self) -> PartOfSpeech {
        match self {
            WordRecord::Noun(_) => PartOfSpeech::Noun,
            WordRecord::Verb(_) => PartOfSpeech::Verb,
            WordRecord::Adjective(_) => PartOfSpeech::Adjective,
            WordRecord::Adverb(_) => PartOfSpeech::Adverb,
            WordRecord::Preposition(_) => PartOfSpeech::Preposition,
        }
    }

    /// A word is well formed when its identifier is not empty.
    pub open spec fn wf(self) -> bool {
        self.word_spec().len() > 0
    }

    /// The spelling under which the word is quizzed: nouns carry their
    /// article and a capital letter, every other word is quizzed as is.
    pub open spec fn spelling_spec(self) -> Seq<char> {
        match self {
            WordRecord::Noun(n) => noun_spelling_spec(n.article, n.common.word@),
            _ => self.word_spec(),
        }
    }

    pub fn pos_str(&self) -> (r: &'static str)
        ensures
            r@ == pos_str_spec(self.pos_spec()),
    {
        match self {
            WordRecord::Noun(_) => "noun",
            WordRecord::Verb(_) => "verb",
            WordRecord::Adjective(_) => "adj",
            WordRecord::Adverb(_) => "adv",
            WordRecord::Preposition(_) => "preposition",
        }
    }

    pub fn get_word(&self) -> (r: &str)
        ensures
            r@ == self.word_spec(),
    {
        match self {
            WordRecord::Noun(n) => n.common.word.as_str(),
            WordRecord::Verb(v) => v.common.word.as_str(),
            WordRecord::Adjective(a) => a.common.word.as_str(),
            WordRecord::Adverb(a) => a.common.word.as_str(),
            WordRecord::Preposition(p) => p.common.word.as_str(),
        }
    }

    pub fn translation(&self) -> (r: &str)
        ensures
            r@ == self.common_of().translation@,
    {
        match self {
            WordRecord::Noun(n) => n.common.translation.as_str(),
            WordRecord::Verb(v) => v.common.translation.as_str(),
            WordRecord::Adjective(a) => a.common.translation.as_str(),
            WordRecord::Adverb(a) => a.common.translation.as_str(),
            WordRecord::Preposition(p) => p.common.translation.as_str(),
        }
    }

    pub fn get_help(&self) -> (r: &str)
        ensures
            r@ == self.common_of().help@,
    {
        match self {
            WordRecord::Noun(n) => n.common.help.as_str(),
            WordRecord::Verb(v) => v.common.help.as_str(),
            WordRecord::Adjective(a) => a.common.help.as_str(),
            WordRecord::Adverb(a) => a.common.help.as_str(),
            WordRecord::Preposition(p) => p.common.help.as_str(),
        }
    }

    pub fn get_group_id(&self) -> (r: usize)
        ensures
            r == self.common_of().group_id,
    {
        match self {
            WordRecord::Noun(n) => n.common.group_id,
            WordRecord::Verb(v) => v.common.group_id,
            WordRecord::Adjective(a) => a.common.group_id,
            WordRecord::Adverb(a) => a.common.group_id,
            WordRecord::Preposition(p) => p.common.group_id,
        }
    }

    pub fn get_pos(&self) -> (r: PartOfSpeech)
        ensures
            r == self.pos_spec(),
    {
        match self {
            WordRecord::Noun(_) => PartOfSpeech::Noun,
            WordRecord::Verb(_) => PartOfSpeech::Verb,
            WordRecord::Adjective(_) => PartOfSpeech::Adjective,
            WordRecord::Adverb(_) => PartOfSpeech::Adverb,
            WordRecord::Preposition(_) => PartOfSpeech::Preposition,
        }
    }

    pub fn get_article(&self) -> (r: Option<NounArticle>)
        ensures
            r == match *self {
                WordRecord::Noun(n) => Some(n.article),
                _ => None::<NounArticle>,
            },
    {
        match self {
            WordRecord::Noun(n) => Some(n.article),
            _ => None,
        }
    }

    pub fn get_verb_praeteritum(&self) -> (r: Option<&str>)
        ensures
            r is Some <==> *self is Verb,
            *self is Verb ==> r->0@ == self->Verb_0.praeteritum@,
    {
        match self {
            WordRecord::Verb(v) => Some(v.praeteritum.as_str()),
            _ => None,
        }
    }

    pub fn get_verb_perfect(&self) -> (r: Option<&str>)
        ensures
            r is Some <==> *self is Verb,
            *self is Verb ==> r->0@ == self->Verb_0.perfect@,
    {
        match self {
            WordRecord::Verb(v) => Some(v.perfect.as_str()),
            _ => None,
        }
    }

    pub fn get_verb_perfect_verb(&self) -> (r: Option<PerfectVerb>)
        ensures
            r == match *self {
                WordRecord::Verb(v) => v.perfect_verb,
                _ => None::<PerfectVerb>,
            },
    {
        match self {
            WordRecord::Verb(v) => v.perfect_verb,
            _ => None,
        }
    }

    pub fn get_verb_present_third(&self) -> (r: Option<&str>)
        ensures
            r is Some <==> *self is Verb,
            *self is Verb ==> r->0@ == self->Verb_0.present_third@,
    {
        match self {
            WordRecord::Verb(v) => Some(v.present_third.as_str()),
            _ => None,
        }
    }

    pub fn spelling(&self) -> (r: String)
        requires
            self.wf(),
        ensures
            r@ == self.spelling_spec(),
    {
        match self {
            WordRecord::Noun(n) => n.spelling(),
            _ => self.get_word().to_owned(),
        }
    }

    pub fn check_spelling(&self, answer: &str) -> (r: bool)
        requires
            self.wf(),
        ensures
            r == spelling_matches(lower_of(answer@), lower_of(self.spelling_spec())),
    {
        let sp = self.spelling();
        check_spelling_simple(answer, sp.as_str())
    }
}

/// The verb form a verb-form exercise asks for.
#[derive(Debug, Clone, Copy, PartialEq, Eq, Structural)]
pub enum VerbFormExercise {
    PresentThird,
    Praeteritum,
    Perfect,
}

impl VerbFormExercise {
    /// Every verb form, in a fixed order.
    pub fn all() -> (r: Vec<VerbFormExercise>)
        ensures
            r@ =~= seq![
                VerbFormExercise::PresentThird,
                VerbFormExercise::Praeteritum,
                VerbFormExercise::Perfect,
            ],
    {
        let mut v: Vec<VerbFormExercise> = Vec::new();
        v.push(VerbFormExercise::PresentThird);
        v.push(VerbFormExercise::Praeteritum);
        v.push(VerbFormExercise::Perfect);
        v
    }
}

/// Whether a word is a verb with the asked-for form on record: a verb
/// lacking a form is never eligible for that form's exercise.
pub open spec fn has_verb_form_spec(w: WordRecord, f: VerbFormExercise) -> bool {
    &&& w is Verb
    &&& match f {
        VerbFormExercise::PresentThird => w->Verb_0.present_third@.len() > 0,
        VerbFormExercise::Praeteritum => w->Verb_0.praeteritum@.len() > 0,
        VerbFormExercise::Perfect => w->Verb_0.perfect_verb is Some && w->Verb_0.perfect@.len()
            > 0,
    }
}

/// Decide whether a word can be quizzed on a verb form.
pub fn has_verb_form(w: &WordRecord, f: &VerbFormExercise) -> (r: bool)
    ensures
        r == has_verb_form_spec(*w, *f),
{
    match w {
        WordRecord::Verb(v) => match f {
            VerbFormExercise::PresentThird => !v.present_third.as_str().is_empty(),
            VerbFormExercise::Praeteritum => !v.praeteritum.as_str().is_empty(),
            VerbFormExercise::Perfect => v.perfect_verb.is_some() && !v.perfect.as_str().is_empty(),
        },
        _ => false,
    }
}

/// The word catalog: topical group names, and one record per word.
pub struct Database {
    pub groups: Vec<String>,
    pub words: Vec<WordRecord>,
}

impl Database {
    /// Every record is well formed and word identifiers are unique.
    pub open spec fn wf(self) -> bool {
        &&& forall|i: int| 0 <= i < self.words@.len() ==> (#[trigger] self.words@[i]).wf()
        &&& forall|i: int, j: int|
            0 <= i < j < self.words@.len() ==> self.words@[i].word_spec()
                != self.words@[j].word_spec()
    }

    pub open spec fn contains_word(self, w: Seq<char>) -> bool {
        exists|i: int| 0 <= i < self.words@.len() && (#[trigger] self.words@[i]).word_spec() == w
    }

    pub open spec fn contains_group(self, n: Seq<char>) -> bool {
        exists|i: int| 0 <= i < self.groups@.len() && (#[trigger] self.groups@[i])@ == n
    }

    pub fn new() -> (r: Self)
        ensures
            r.groups@.len() == 0,
            r.words@.len() == 0,
            r.wf(),
    {
        Database { groups: Vec::new(), words: Vec::new() }
    }

    /// The dense index of a topical group: the position of an existing
    /// group name, or a fresh index for a name seen for the first time.
    pub fn get_group_id(&mut self, name: &str) -> (r: usize)
        ensures
            final(self).words@ == old(self).words@,
            r < final(self).groups@.len(),
            final(self).groups@[r as int]@ == name@,
            forall|k: int| 0 <= k < r ==> (#[trigger] final(self).groups@[k])@ != name@,
            old(self).contains_group(name@) ==> final(self).groups@ == old(self).groups@,
            !old(self).contains_group(name@) ==> {
                &&& final(self).groups@.len() == old(self).groups@.len() + 1
                &&& final(self).groups@.take(old(self).groups@.len() as int) == old(self).groups@
                &&& r == old(self).groups@.len()
            },
    {
        let n = self.groups.len();
        let mut i: usize = 0;
        while i < n
            invariant
                i <= n,
                n == self.groups@.len(),
                *self == *old(self),
                forall|k: int| 0 <= k < i ==> (#[trigger] self.groups@[k])@ != name@,
            decreases n - i,
        {
            if str_eq(self.groups[i].as_str(), name) {
                return i;
            }
            i += 1;
        }
        self.groups.push(name.to_owned());
        proof {
            assert(final(self).groups@.take(old(self).groups@.len() as int) =~= old(
                self,
            ).groups@);
        }
        n
    }

    /// Look a word up by its identifier; the first record with that
    /// identifier is returned.
    pub fn find_word(&self, word: &str) -> (r: Option<&WordRecord>)
        ensures
            r is Some <==> self.contains_word(word@),
            r is Some ==> r->0.word_spec() == word@ && exists|i: int|
                0 <= i < self.words@.len() && self.words@[i] == *r->0,
    {
        let n = self.words.len();
        let mut i: usize = 0;
        while i < n
            invariant
                i <= n,
                n == self.words@.len(),
                forall|k: int| 0 <= k < i ==> (#[trigger] self.words@[k]).word_spec() != word@,
            decreases n - i,
        {
            if str_eq(self.words[i].get_word(), word) {
                return Some(&self.words[i]);
            }
            i += 1;
        }
        None
    }

    /// Add a record unless a word with the same identifier is already
    /// present; reports whether it was added.
    pub fn add_word(&mut self, rec: WordRecord) -> (added: bool)
        requires
            old(self).wf(),
            rec.wf(),
        ensures
            final(self).wf(),
            final(self).groups@ == old(self).groups@,
            added == !old(self).contains_word(rec.word_spec()),
            added ==> final(self).words@ == old(self).words@.push(rec),
            !added ==> final(self).words@ == old(self).words@,
    {
        let n = self.words.len();
        let mut i: usize = 0;
        while i < n
            invariant
                i <= n,
                n == self.words@.len(),
                *self == *old(self),
                old(self).wf(),
                forall|k: int|
                    0 <= k < i ==> (#[trigger] self.words@[k]).word_spec() != rec.word_spec(),
            decreases n - i,
        {
            if str_eq(self.words[i].get_word(), rec.get_word()) {
                return false;
            }
            i += 1;
        }
        self.words.push(rec);
        true
    }
}

} // verus!
