use crate::text::same_text;
use std::str::FromStr;
use vstd::prelude::*;

verus! {

/// A language that the library tags documents with.
#[derive(Clone, Copy, Debug, PartialEq, Eq, Structural)]
pub enum LanguageTag {
    /// English.
    En,
    /// French.
    Fr,
    /// German.
    De,
    /// Spanish.
    Es,
    /// Italian.
    It,
    /// Portuguese.
    Pt,
    /// Greek.
    El,
    /// Dutch.
    Nl,
    /// Russian.
    Ru,
    /// Arabic.
    Ar,
    /// Japanese.
    Ja,
    /// Korean.
    Ko,
}

impl LanguageTag {
    /// The two-letter code of the language.
    pub open spec fn code_view(self) -> Seq<char> {
        match self {
            LanguageTag::En => "en"@,
            LanguageTag::Fr => "fr"@,
            LanguageTag::De => "de"@,
            LanguageTag::Es => "es"@,
            LanguageTag::It => "it"@,
            LanguageTag::Pt => "pt"@,
            LanguageTag::El => "el"@,
            LanguageTag::Nl => "nl"@,
            LanguageTag::Ru => "ru"@,
            LanguageTag::Ar => "ar"@,
            LanguageTag::Ja => "ja"@,
            LanguageTag::Ko => "ko"@,
        }
    }

    /// The two-letter code of the language.
    pub fn code(self) -> (r: &'static str)
        ensures
            r@ == self.code_view(),
    {
        match self {
            LanguageTag::En => "en",
            LanguageTag::Fr => "fr",
            LanguageTag::De => "de",
            LanguageTag::Es => "es",
            LanguageTag::It => "it",
            LanguageTag::Pt => "pt",
            LanguageTag::El => "el",
            LanguageTag::Nl => "nl",
            LanguageTag::Ru => "ru",
            LanguageTag::Ar => "ar",
            LanguageTag::Ja => "ja",
            LanguageTag::Ko => "ko",
        }
    }
}

/// The label of a detection outcome: the code of the language, or
/// `unknown` where none was found.
pub open spec fn label_view(lang: Option<LanguageTag>) -> Seq<char> {
    match lang {
        Some(t) => t.code_view(),
        None => "unknown"@,
    }
}

/// The label of a detection outcome: the code of the language, or
/// `unknown` where none was found.
pub fn language_label(lang: Option<LanguageTag>) -> (r: String)
    ensures
        r@ == label_view(lang),
{
    match lang {
        Some(t) => t.code().to_owned(),
        None => "unknown".to_owned(),
    }
}

/// The table from three-letter language codes to tags: twelve entries, one
/// per tag.
pub open spec fn iso_table() -> Seq<(Seq<char>, LanguageTag)> {
    seq![
        ("eng"@, LanguageTag::En),
        ("fra"@, LanguageTag::Fr),
        ("deu"@, LanguageTag::De),
        ("spa"@, LanguageTag::Es),
        ("ita"@, LanguageTag::It),
        ("por"@, LanguageTag::Pt),
        ("ell"@, LanguageTag::El),
        ("nld"@, LanguageTag::Nl),
        ("rus"@, LanguageTag::Ru),
        ("ara"@, LanguageTag::Ar),
        ("jpn"@, LanguageTag::Ja),
        ("kor"@, LanguageTag::Ko),
    ]
}

/// A table of codes and tags, by the characters of its codes.
pub open spec fn table_view(table: Seq<(String, LanguageTag)>) -> Seq<(Seq<char>, LanguageTag)> {
    table.map_values(|p: (String, LanguageTag)| (p.0@, p.1))
}

/// The tag of the first entry of `table` whose code is `code`.
pub open spec fn lookup(table: Seq<(Seq<char>, LanguageTag)>, code: Seq<char>) -> Option<
    LanguageTag,
>
    decreases table.len(),
{
    if table.len() == 0 {
        None
    } else if table[0].0 == code {
        Some(table[0].1)
    } else {
        lookup(table.drop_first(), code)
    }
}

/// The table from three-letter language codes to tags.
pub fn get_iso_codes() -> (r: Vec<(String, LanguageTag)>)
    ensures
        table_view(r@) == iso_table(),
{
    let mut table: Vec<(String, LanguageTag)> = Vec::new();
    table.push(("eng".to_owned(), LanguageTag::En));
    table.push(("fra".to_owned(), LanguageTag::Fr));
    table.push(("deu".to_owned(), LanguageTag::De));
    table.push(("spa".to_owned(), LanguageTag::Es));
    table.push(("ita".to_owned(), LanguageTag::It));
    table.push(("por".to_owned(), LanguageTag::Pt));
    table.push(("ell".to_owned(), LanguageTag::El));
    table.push(("nld".to_owned(), LanguageTag::Nl));
    table.push(("rus".to_owned(), LanguageTag::Ru));
    table.push(("ara".to_owned(), LanguageTag::Ar));
    table.push(("jpn".to_owned(), LanguageTag::Ja));
    table.push(("kor".to_owned(), LanguageTag::Ko));
    proof {
        assert(table_view(table@) =~= iso_table());
    }
    table
}

/// The tag that `table` gives for a three-letter language code, if it
/// holds the code.
pub fn whatlang_to_iso(code: &str, table: &Vec<(String, LanguageTag)>) -> (r: Option<LanguageTag>)
    ensures
        r == lookup(table_view(table@), code@),
{
    let ghost full = table_view(table@);
    let mut i: usize = 0;
    proof {
        assert(full.skip(0) =~= full);
    }
    while i < table.len()
        invariant
            i <= table.len(),
            full == table_view(table@),
            lookup(full, code@) == lookup(full.skip(i as int), code@),
        decreases table.len() - i,
    {
        proof {
            assert(full.skip(i as int)[0] == (table@[i as int].0@, table@[i as int].1));
            assert(full.skip(i as int).drop_first() =~= full.skip(i + 1));
        }
        if same_text(table[i].0.as_str(), code) {
            return Some(table[i].1);
        }
        i += 1;
    }
    None
}

/// The tag of a two-letter language code, if it is the code of a tag.
pub open spec fn tag_of_code(code: Seq<char>) -> Option<LanguageTag> {
    if code == "en"@ {
        Some(LanguageTag::En)
    } else if code == "fr"@ {
        Some(LanguageTag::Fr)
    } else if code == "de"@ {
        Some(LanguageTag::De)
    } else if code == "es"@ {
        Some(LanguageTag::Es)
    } else if code == "it"@ {
        Some(LanguageTag::It)
    } else if code == "pt"@ {
        Some(LanguageTag::Pt)
    } else if code == "el"@ {
        Some(LanguageTag::El)
    } else if code == "nl"@ {
        Some(LanguageTag::Nl)
    } else if code == "ru"@ {
        Some(LanguageTag::Ru)
    } else if code == "ar"@ {
        Some(LanguageTag::Ar)
    } else if code == "ja"@ {
        Some(LanguageTag::Ja)
    } else if code == "ko"@ {
        Some(LanguageTag::Ko)
    } else {
        None
    }
}

/// The tag of a two-letter language code; none for any other string.
pub fn lingua_to_iso(code: &str) -> (r: Option<LanguageTag>)
    ensures
        r == tag_of_code(code@),
{
    if same_text(code, "en") {
        Some(LanguageTag::En)
    } else if same_text(code, "fr") {
        Some(LanguageTag::Fr)
    } else if same_text(code, "de") {
        Some(LanguageTag::De)
    } else if same_text(code, "es") {
        Some(LanguageTag::Es)
    } else if same_text(code, "it") {
        Some(LanguageTag::It)
    } else if same_text(code, "pt") {
        Some(LanguageTag::Pt)
    } else if same_text(code, "el") {
        Some(LanguageTag::El)
    } else if same_text(code, "nl") {
        Some(LanguageTag::Nl)
    } else if same_text(code, "ru") {
        Some(LanguageTag::Ru)
    } else if same_text(code, "ar") {
        Some(LanguageTag::Ar)
    } else if same_text(code, "ja") {
        Some(LanguageTag::Ja)
    } else if same_text(code, "ko") {
        Some(LanguageTag::Ko)
    } else {
        None
    }
}

/// The code of every tag is the code of that tag and of no other.
pub proof fn lemma_tag_of_code(t: LanguageTag)
    ensures
        tag_of_code(t.code_view()) == Some(t),
{
    reveal_strlit("en");
    reveal_strlit("fr");
    reveal_strlit("de");
    reveal_strlit("es");
    reveal_strlit("it");
    reveal_strlit("pt");
    reveal_strlit("el");
    reveal_strlit("nl");
    reveal_strlit("ru");
    reveal_strlit("ar");
    reveal_strlit("ja");
    reveal_strlit("ko");
    assert("en"@[0] == 'e' && "en"@[1] == 'n');
    assert("fr"@[0] == 'f' && "fr"@[1] == 'r');
    assert("de"@[0] == 'd' && "de"@[1] == 'e');
    assert("es"@[0] == 'e' && "es"@[1] == 's');
    assert("it"@[0] == 'i' && "it"@[1] == 't');
    assert("pt"@[0] == 'p' && "pt"@[1] == 't');
    assert("el"@[0] == 'e' && "el"@[1] == 'l');
    assert("nl"@[0] == 'n' && "nl"@[1] == 'l');
    assert("ru"@[0] == 'r' && "ru"@[1] == 'u');
    assert("ar"@[0] == 'a' && "ar"@[1] == 'r');
    assert("ja"@[0] == 'j' && "ja"@[1] == 'a');
    assert("ko"@[0] == 'k' && "ko"@[1] == 'o');
}

/// The least confidence pattern that is not accepted: that of the
/// double-precision number nearest to 0.8.
pub const CONFIDENCE_THRESHOLD_BITS: u64 = 0x3FE9_9999_9999_999A;

/// The pattern of positive infinity, the greatest pattern of a number that
/// is not negative.
pub const INFINITY_BITS: u64 = 0x7FF0_0000_0000_0000;

/// Whether a confidence, given as the bit pattern of a double-precision
/// number, is strictly above the threshold. Among the patterns of numbers
/// that are not negative, a greater number has a greater pattern; patterns
/// above that of infinity belong to values that are not numbers and to
/// negative numbers, neither of which is above the threshold.
pub open spec fn is_confident(bits: u64) -> bool {
    CONFIDENCE_THRESHOLD_BITS < bits <= INFINITY_BITS
}

/// What the fast detector says of a text: the three-letter code of the
/// language it takes the text for, and its confidence as the bit pattern
/// of a double-precision number.
#[derive(Debug)]
pub struct Guess {
    /// The three-letter code of the language.
    pub code: String,
    /// The confidence, as the bit pattern of a double-precision number.
    pub confidence_bits: u64,
}

impl View for Guess {
    type V = (Seq<char>, u64);

    open spec fn view(&self) -> (Seq<char>, u64) {
        (self.code@, self.confidence_bits)
    }
}

/// A guess, where there is one, by its view.
pub open spec fn guess_view(g: Option<Guess>) -> Option<(Seq<char>, u64)> {
    match g {
        Some(guess) => Some(guess@),
        None => None,
    }
}

/// The tag that the fast detector's guess is accepted as: the tag that the
/// table gives for its code, where its confidence is above the threshold.
pub open spec fn primary_choice(
    g: Option<(Seq<char>, u64)>,
    table: Seq<(Seq<char>, LanguageTag)>,
) -> Option<LanguageTag> {
    match g {
        Some((code, bits)) => if is_confident(bits) {
            lookup(table, code)
        } else {
            None
        },
        None => None,
    }
}

/// The tag that the thorough detector's answer is accepted as.
pub open spec fn fallback_choice(code: Option<Seq<char>>) -> Option<LanguageTag> {
    match code {
        Some(c) => tag_of_code(c),
        None => None,
    }
}

/// Accepts the fast detector's guess where its confidence is strictly
/// above the threshold and the table holds its language.
pub fn accept_primary(guess: &Option<Guess>, table: &Vec<(String, LanguageTag)>) -> (r: Option<
    LanguageTag,
>)
    ensures
        r == primary_choice(guess_view(*guess), table_view(table@)),
{
    match guess {
        Some(g) => {
            if CONFIDENCE_THRESHOLD_BITS < g.confidence_bits && g.confidence_bits
                <= INFINITY_BITS {
                whatlang_to_iso(g.code.as_str(), table)
            } else {
                None
            }
        },
        None => None,
    }
}

/// Accepts the thorough detector's answer where it is the code of a tag.
pub fn accept_fallback(code: &Option<String>) -> (r: Option<LanguageTag>)
    ensures
        r == fallback_choice(
            match *code {
                Some(c) => Some(c@),
                None => None,
            },
        ),
{
    match code {
        Some(c) => lingua_to_iso(c.as_str()),
        None => None,
    }
}

/// The tags, in the order in which they are offered as candidates.
pub open spec fn all_tags() -> Seq<LanguageTag> {
    seq![
        LanguageTag::En,
        LanguageTag::Fr,
        LanguageTag::De,
        LanguageTag::Es,
        LanguageTag::It,
        LanguageTag::Pt,
        LanguageTag::El,
        LanguageTag::Nl,
        LanguageTag::Ru,
        LanguageTag::Ar,
        LanguageTag::Ja,
        LanguageTag::Ko,
    ]
}

/// The two-letter codes of the languages among which the thorough detector
/// chooses: those of the twelve tags.
pub fn candidate_codes() -> (r: Vec<String>)
    ensures
        r@.len() == all_tags().len(),
        forall|i: int| 0 <= i < r@.len() ==> (#[trigger] r@[i])@ == all_tags()[i].code_view(),
        forall|i: int| 0 <= i < r@.len() ==> tag_of_code(#[trigger] r@[i]@) is Some,
{
    let mut codes: Vec<String> = Vec::new();
    codes.push(LanguageTag::En.code().to_owned());
    codes.push(LanguageTag::Fr.code().to_owned());
    codes.push(LanguageTag::De.code().to_owned());
    codes.push(LanguageTag::Es.code().to_owned());
    codes.push(LanguageTag::It.code().to_owned());
    codes.push(LanguageTag::Pt.code().to_owned());
    codes.push(LanguageTag::El.code().to_owned());
    codes.push(LanguageTag::Nl.code().to_owned());
    codes.push(LanguageTag::Ru.code().to_owned());
    codes.push(LanguageTag::Ar.code().to_owned());
    codes.push(LanguageTag::Ja.code().to_owned());
    codes.push(LanguageTag::Ko.code().to_owned());
    proof {
        assert forall|i: int| 0 <= i < codes@.len() implies tag_of_code(
            #[trigger] codes@[i]@,
        ) is Some by {
            lemma_tag_of_code(all_tags()[i]);
        }
    }
    codes
}

/// What `whatlang::detect` says of a text: the three-letter code of the
/// language it takes the text for, and its confidence as the bit pattern
/// of a double-precision number; none where it finds no language.
pub uninterp spec fn whatlang_guess(text: Seq<char>) -> Option<(Seq<char>, u64)>;

/// `whatlang::detect`, with `Info::lang`, `Lang::code` and
/// `Info::confidence` to read its answer: the three-letter code of the
/// language and the confidence, as the bit pattern of the number. The
/// answer is a function of the text alone, referred to as
/// `whatlang_guess`; for a text without characters there is none.
#[verifier::external_body]
fn whatlang_detect(text: &str) -> (r: Option<Guess>)
    ensures
        guess_view(r) == whatlang_guess(text@),
        text@.len() == 0 ==> r is None,
{
    match whatlang::detect(text) {
        Some(info) => Some(
            Guess {
                code: info.lang().code().to_string(),
                confidence_bits: info.confidence().to_bits(),
            },
        ),
        None => None,
    }
}

/// `lingua::LanguageDetector::detect_language_of`, on the detector that
/// `lingua::LanguageDetectorBuilder::from_iso_codes_639_1` and `build` make
/// for the candidate codes, read by `lingua::IsoCode639_1::from_str`; the
/// answer is given as the two-letter code that
/// `lingua::Language::iso_code_639_1` has for the language found. It is
/// one of the candidates, and for a text without characters there is
/// none. The builder refuses an empty list, and a string that is no
/// language code cannot be handed to it.
#[verifier::external_body]
fn lingua_detect(text: &str, candidates: &Vec<String>) -> (r: Option<String>)
    requires
        candidates@.len() > 0,
        forall|i: int| 0 <= i < candidates@.len() ==> tag_of_code(#[trigger] candidates@[i]@) is Some,
    ensures
        text@.len() == 0 ==> r is None,
        r matches Some(code) ==> exists|i: int|
            0 <= i < candidates@.len() && #[trigger] candidates@[i]@ == code@,
{
    let codes: Vec<lingua::IsoCode639_1> = candidates.iter().map(
        |c| lingua::IsoCode639_1::from_str(c).unwrap(),
    ).collect();
    let detector = lingua::LanguageDetectorBuilder::from_iso_codes_639_1(&codes).build();
    detector.detect_language_of(text).map(|l| l.iso_code_639_1().to_string())
}

/// Finds the language of a text: the fast detector's, where it is
/// confident and its language has a tag; else the thorough detector's,
/// among the twelve tagged languages; else none.
pub fn detect_language(text: &str) -> (r: Option<LanguageTag>)
    ensures
        primary_choice(whatlang_guess(text@), iso_table()) matches Some(t) ==> r == Some(t),
        text@.len() == 0 ==> r is None,
{
    let table = get_iso_codes();
    let guess = whatlang_detect(text);
    match accept_primary(&guess, &table) {
        Some(t) => Some(t),
        None => {
            let candidates = candidate_codes();
            let answer = lingua_detect(text, &candidates);
            accept_fallback(&answer)
        },
    }
}

} // verus!
