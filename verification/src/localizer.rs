//! The texts of the interface in each language, kept as Fluent bundles: one
//! bundle per language, built from the Fluent source of that language, and
//! the lookup of a text by its key.
use vstd::prelude::*;
use vstd::string::*;
use fluent::bundle::FluentBundle;
use fluent::FluentResource;
use intl_memoizer::concurrent::IntlLangMemoizer;
use unic_langid::LanguageIdentifier;
use crate::session::{language_of, cookie_language, cookie_view};

verus! {

#[verifier::external_type_specification]
#[verifier::external_body]
#[verifier::reject_recursive_types(R)]
#[verifier::reject_recursive_types(M)]
pub struct ExFluentBundle<R, M>(FluentBundle<R, M>);

#[verifier::external_type_specification]
#[verifier::external_body]
pub struct ExFluentResource(FluentResource);

#[verifier::external_type_specification]
#[verifier::external_body]
pub struct ExIntlLangMemoizer(IntlLangMemoizer);

#[verifier::external_type_specification]
#[verifier::external_body]
pub struct ExLanguageIdentifier(LanguageIdentifier);

/// A Fluent bundle of one language, safe to share between threads.
pub type TextBundle = FluentBundle<FluentResource, IntlLangMemoizer>;

/// The canonical text of the language identifier that `unic_langid` reads
/// from `tag` (as `en-US` from `en-us`); `None` where it reads none.
pub uninterp spec fn language_tag(tag: Seq<char>) -> Option<Seq<char>>;

/// Whether `fluent` parses the Fluent source `source` without errors.
pub uninterp spec fn ftl_is_valid(source: Seq<char>) -> bool;

/// The messages of a bundle that have a value, each with the text that the
/// bundle formats for it without arguments.
pub uninterp spec fn bundle_messages(
    bundle: TextBundle,
) -> Map<Seq<char>, Seq<char>>;

/// Whether no two entries (messages and terms) of the Fluent source `source`
/// share an id, so that `FluentBundle::add_resource` takes all of them into
/// a new bundle.
pub uninterp spec fn ftl_ids_distinct(source: Seq<char>) -> bool;

/// The messages of the Fluent source `source` that have a value, each with
/// the text it formats to without arguments, in a bundle of the language
/// whose canonical tag is `language`.
pub uninterp spec fn ftl_messages(language: Seq<char>, source: Seq<char>) -> Map<Seq<char>, Seq<char>>;

/// Whether formatting each message of the Fluent source `source`, in a
/// bundle of the language whose canonical tag is `language`, returns: it
/// does not where, for one, a number with twenty or more fraction digits
/// meets plural keys (the plural operands overflow).
pub uninterp spec fn ftl_formats(language: Seq<char>, source: Seq<char>) -> bool;

/// Whether formatting each message of a bundle returns.
pub uninterp spec fn bundle_formats(bundle: TextBundle) -> bool;

/// What building the bundle of one language gave.
pub enum BundleBuild {
    /// The tag names no language.
    InvalidLanguage,
    /// The source does not parse.
    InvalidSource,
    /// Two entries of the source share an id.
    ConflictingEntries,
    /// The bundle, with the canonical tag of its language.
    Built { language: String, bundle: TextBundle },
}

/// Builds the bundle of one language: reads the language identifier from
/// `tag` (`LanguageIdentifier`'s `FromStr`) and writes it back in canonical
/// form (its `Display`), parses `source` (`FluentResource::try_new`), makes a
/// bundle of that language (`FluentBundle::new_concurrent`) and adds the
/// resource to it (`FluentBundle::add_resource`), stopping at the first step
/// that fails. The contract claims that each outcome depends on `tag` and
/// `source` alone, as the names `language_tag`, `ftl_is_valid`,
/// `ftl_ids_distinct`, `ftl_messages` and `ftl_formats` say, and that a
/// built bundle holds the messages of `source`.
#[verifier::external_body]
fn build_bundle(tag: &str, source: String) -> (r: BundleBuild)
    ensures
        match r {
            BundleBuild::InvalidLanguage => language_tag(tag@) is None,
            BundleBuild::InvalidSource => language_tag(tag@) is Some && !ftl_is_valid(source@),
            BundleBuild::ConflictingEntries => language_tag(tag@) is Some && ftl_is_valid(source@)
                && !ftl_ids_distinct(source@),
            BundleBuild::Built { language, bundle } => language_tag(tag@) == Some(language@)
                && ftl_is_valid(source@) && ftl_ids_distinct(source@) && bundle_messages(bundle)
                == ftl_messages(language@, source@) && bundle_formats(bundle) == ftl_formats(
                language@,
                source@,
            ),
        },
{
    let id = match tag.parse::<LanguageIdentifier>() {
        Ok(id) => id,
        Err(_) => return BundleBuild::InvalidLanguage,
    };
    let resource = match FluentResource::try_new(source) {
        Ok(resource) => resource,
        Err(_) => return BundleBuild::InvalidSource,
    };
    let language = id.to_string();
    let mut bundle = FluentBundle::new_concurrent(vec![id]);
    match bundle.add_resource(resource) {
        Ok(()) => BundleBuild::Built { language, bundle },
        Err(_) => BundleBuild::ConflictingEntries,
    }
}

/// Formats the message `key` of a bundle with `get_message`, `value` and
/// `format_pattern`, without arguments; `None` where the bundle has no such
/// message or it has no value. The contract claims that this is what
/// `bundle_messages` holds for `key`, where formatting the bundle's messages
/// returns (`bundle_formats`).
#[verifier::external_body]
fn message_text(bundle: &TextBundle, key: &str) -> (r: Option<String>)
    requires
        bundle_formats(*bundle),
    ensures
        match r {
            Some(t) => bundle_messages(*bundle).contains_key(key@) && bundle_messages(*bundle)[key@] == t@,
            None => !bundle_messages(*bundle).contains_key(key@),
        },
{
    let message = bundle.get_message(key)?;
    let pattern = message.value()?;
    let mut errors = vec![];
    Some(bundle.format_pattern(pattern, None, &mut errors).to_string())
}

/// The Fluent source of one language: the name of its file without the
/// extension (a language tag such as `sk` or `en-US`) and its text.
pub struct LocaleSource {
    pub tag: String,
    pub text: String,
}

/// Why the texts of the interface could not be loaded: the source at
/// `index` names no language, or its text does not parse, or two of its
/// entries share an id.
#[derive(Debug, PartialEq, Eq)]
pub enum LocalizerError {
    InvalidLanguage { index: usize },
    InvalidResource { index: usize },
    ConflictingEntries { index: usize },
}

/// The bundle of one language.
pub struct LocaleBundle {
    language: String,
    bundle: TextBundle,
}

/// The texts of the interface, one bundle per language.
pub struct Localizer {
    bundles: Vec<LocaleBundle>,
}

/// The languages and messages of a list of bundles; a later bundle of a
/// language replaces an earlier one.
pub closed spec fn bundles_view(s: Seq<LocaleBundle>) -> Map<Seq<char>, Map<Seq<char>, Seq<char>>>
    decreases s.len(),
{
    if s.len() == 0 {
        Map::empty()
    } else {
        bundles_view(s.drop_last()).insert(s.last().language@, bundle_messages(s.last().bundle))
    }
}

/// No language has two bundles.
pub closed spec fn languages_distinct(s: Seq<LocaleBundle>) -> bool {
    forall|i: int, j: int| 0 <= i < j < s.len() ==> s[i].language@ != s[j].language@
}

impl View for Localizer {
    type V = Map<Seq<char>, Map<Seq<char>, Seq<char>>>;

    /// For each language, the messages of its bundle and their texts.
    closed spec fn view(&self) -> Map<Seq<char>, Map<Seq<char>, Seq<char>>> {
        bundles_view(self.bundles@)
    }
}

/// The languages that the sources name, as canonical tags.
pub open spec fn source_languages(sources: Seq<LocaleSource>) -> Set<Seq<char>> {
    Set::new(|l: Seq<char>| exists|i: int| 0 <= i < sources.len() && language_tag(#[trigger] sources[i].tag@) == Some(l))
}

/// Each source before `upto` names a language, parses, and has no two
/// entries of one id.
pub open spec fn sources_readable(sources: Seq<LocaleSource>, upto: int) -> bool {
    forall|i: int|
        0 <= i < upto ==> language_tag(#[trigger] sources[i].tag@) is Some && ftl_is_valid(
            sources[i].text@,
        ) && ftl_ids_distinct(sources[i].text@)
}

/// The messages of the language `m` that the sources give: those of the last
/// source whose tag reads as `m`, formatted in that language.
pub open spec fn messages_of_language(sources: Seq<LocaleSource>, m: Seq<char>) -> Map<
    Seq<char>,
    Seq<char>,
>
    decreases sources.len(),
{
    if sources.len() == 0 {
        Map::empty()
    } else if language_tag(sources.last().tag@) == Some(m) {
        ftl_messages(m, sources.last().text@)
    } else {
        messages_of_language(sources.drop_last(), m)
    }
}

/// Whether the messages of the language `m` that the sources give (those of
/// its last source) format without panicking.
pub open spec fn formats_of_language(sources: Seq<LocaleSource>, m: Seq<char>) -> bool
    decreases sources.len(),
{
    if sources.len() == 0 {
        true
    } else if language_tag(sources.last().tag@) == Some(m) {
        ftl_formats(m, sources.last().text@)
    } else {
        formats_of_language(sources.drop_last(), m)
    }
}

proof fn lemma_bundles_view(s: Seq<LocaleBundle>)
    requires
        languages_distinct(s),
    ensures
        forall|i: int| 0 <= i < s.len() ==> #[trigger] bundles_view(s).contains_key(s[i].language@) && bundles_view(s)[s[i].language@] == bundle_messages(s[i].bundle),
        forall|l: Seq<char>| #[trigger] bundles_view(s).contains_key(l) ==> exists|i: int| 0 <= i < s.len() && s[i].language@ == l,
    decreases s.len(),
{
    if s.len() > 0 {
        let t = s.drop_last();
        assert(languages_distinct(t));
        lemma_bundles_view(t);
        assert forall|i: int| 0 <= i < s.len() implies #[trigger] bundles_view(s).contains_key(s[i].language@) && bundles_view(s)[s[i].language@] == bundle_messages(s[i].bundle) by {
            assert(bundles_view(s) == bundles_view(t).insert(s.last().language@, bundle_messages(s.last().bundle)));
            if i < s.len() - 1 {
                assert(t[i] == s[i]);
                assert(s[i].language@ != s.last().language@);
                assert(bundles_view(t).contains_key(t[i].language@));
            }
        }
        assert forall|l: Seq<char>| #[trigger] bundles_view(s).contains_key(l) implies exists|i: int| 0 <= i < s.len() && s[i].language@ == l by {
            if l != s.last().language@ {
                assert(bundles_view(t).contains_key(l));
                let i = choose|i: int| 0 <= i < t.len() && t[i].language@ == l;
                assert(s[i] == t[i]);
            } else {
                assert(s[s.len() - 1].language@ == l);
            }
        }
    }
}

/// The languages that a list of bundles has bundles for.
pub closed spec fn bundle_languages(s: Seq<LocaleBundle>) -> Set<Seq<char>> {
    Set::new(|l: Seq<char>| exists|k: int| 0 <= k < s.len() && #[trigger] s[k].language@ == l)
}

/// Where the bundle of `language` stands in `bundles`, if there is one.
fn find_language(bundles: &Vec<LocaleBundle>, language: &str) -> (r: Option<usize>)
    ensures
        match r {
            Some(i) => i < bundles@.len() && bundles@[i as int].language@ == language@,
            None => forall|i: int| 0 <= i < bundles@.len() ==> bundles@[i].language@ != language@,
        },
{
    let n = bundles.len();
    let target = String::from_str(language);
    let mut i: usize = 0;
    while i < n
        invariant
            target@ == language@,
            n == bundles@.len(),
            i <= n,
            forall|j: int| 0 <= j < i ==> bundles@[j].language@ != language@,
        decreases n - i,
    {
        if bundles[i].language == target {
            return Some(i);
        }
        i = i + 1;
    }
    None
}

/// The texts of one language, as `for_language` hands them out.
pub struct Translator<'a> {
    language: String,
    bundle: &'a TextBundle,
}

impl<'a> View for Translator<'a> {
    type V = Map<Seq<char>, Seq<char>>;

    /// The messages of the language and their texts.
    closed spec fn view(&self) -> Map<Seq<char>, Seq<char>> {
        bundle_messages(*self.bundle)
    }
}

impl<'a> Translator<'a> {
    /// The language of the texts.
    pub closed spec fn spec_language(&self) -> Seq<char> {
        self.language@
    }

    /// Whether formatting the messages of the language returns.
    pub closed spec fn formats(&self) -> bool {
        bundle_formats(*self.bundle)
    }

    /// The language of the texts.
    pub fn language(&self) -> (r: &str)
        ensures
            r@ == self.spec_language(),
    {
        self.language.as_str()
    }

    /// The text of the message `key`; `None` where the language has no such
    /// message with a value.
    pub fn try_translate(&self, key: &str) -> (r: Option<String>)
        requires
            self.formats(),
        ensures
            match r {
                Some(t) => self@.contains_key(key@) && self@[key@] == t@,
                None => !self@.contains_key(key@),
            },
    {
        message_text(self.bundle, key)
    }

    /// The text of the message `key`, which the language has.
    pub fn translate(&self, key: &str) -> (r: String)
        requires
            self.formats(),
            self@.contains_key(key@),
        ensures
            r@ == self@[key@],
    {
        match message_text(self.bundle, key) {
            Some(t) => t,
            None => String::new(),
        }
    }
}

impl Localizer {
    /// Builds the bundles of the languages from their Fluent sources, in the
    /// order given; a later source of a language replaces an earlier one.
    /// Fails at the first source that names no language, whose text does
    /// not parse, or that has two entries of one id; succeeds where there is
    /// none.
    pub fn new(sources: Vec<LocaleSource>) -> (r: Result<Localizer, LocalizerError>)
        ensures
            sources_readable(sources@, sources@.len() as int) <==> r is Ok,
            match r {
                Ok(l) => l@.dom() == source_languages(sources@) && forall|m: Seq<char>|
                    #[trigger] l@.contains_key(m) ==> l@[m] == messages_of_language(sources@, m)
                        && l.formats(m) == formats_of_language(sources@, m),
                Err(LocalizerError::InvalidLanguage { index }) => index < sources@.len()
                    && sources_readable(sources@, index as int) && language_tag(
                    sources@[index as int].tag@,
                ) is None,
                Err(LocalizerError::InvalidResource { index }) => index < sources@.len()
                    && sources_readable(sources@, index as int) && language_tag(
                    sources@[index as int].tag@,
                ) is Some && !ftl_is_valid(sources@[index as int].text@),
                Err(LocalizerError::ConflictingEntries { index }) => index < sources@.len()
                    && sources_readable(sources@, index as int) && language_tag(
                    sources@[index as int].tag@,
                ) is Some && ftl_is_valid(sources@[index as int].text@) && !ftl_ids_distinct(
                    sources@[index as int].text@,
                ),
            },
    {
        let n = sources.len();
        let mut bundles: Vec<LocaleBundle> = Vec::new();
        let mut i: usize = 0;
        while i < n
            invariant
                n == sources@.len(),
                i <= n,
                languages_distinct(bundles@),
                sources_readable(sources@, i as int),
                bundle_languages(bundles@) == source_languages(sources@.subrange(0, i as int)),
                forall|k: int|
                    0 <= k < bundles@.len() ==> bundle_messages(#[trigger] bundles@[k].bundle)
                        == messages_of_language(sources@.subrange(0, i as int), bundles@[k].language@)
                        && bundle_formats(bundles@[k].bundle) == formats_of_language(
                        sources@.subrange(0, i as int),
                        bundles@[k].language@,
                    ),
            decreases n - i,
        {
            let (language, bundle) = match build_bundle(sources[i].tag.as_str(), sources[i].text.clone()) {
                BundleBuild::Built { language, bundle } => (language, bundle),
                BundleBuild::InvalidLanguage => {
                    return Err(LocalizerError::InvalidLanguage { index: i });
                },
                BundleBuild::InvalidSource => {
                    return Err(LocalizerError::InvalidResource { index: i });
                },
                BundleBuild::ConflictingEntries => {
                    return Err(LocalizerError::ConflictingEntries { index: i });
                },
            };
            let ghost before = bundles@;
            let entry = LocaleBundle { language, bundle };
            let ghost entry_language = entry.language@;
            let ghost mut w: int = 0;
            match find_language(&bundles, entry.language.as_str()) {
                Some(p) => {
                    bundles.set(p, entry);
                    proof {
                        w = p as int;
                    }
                },
                None => {
                    bundles.push(entry);
                    proof {
                        w = before.len() as int;
                    }
                },
            }
            assert(0 <= w < bundles@.len() && bundles@[w].language@ == entry_language);
            proof {
                let pre = sources@.subrange(0, i as int);
                let post = sources@.subrange(0, i + 1);
                let l = language_tag(sources@[i as int].tag@)->0;
                assert forall|j: int, k: int| 0 <= j < k < bundles@.len() implies bundles@[j].language@ != bundles@[k].language@ by {
                    if k == before.len() {
                        assert(bundles@[j] == before[j]);
                    }
                }
                assert forall|m: Seq<char>| bundle_languages(bundles@).contains(m) <==> source_languages(post).contains(m) by {
                    if bundle_languages(bundles@).contains(m) {
                        let k = choose|k: int| 0 <= k < bundles@.len() && #[trigger] bundles@[k].language@ == m;
                        if m != l {
                            assert(before[k] == bundles@[k]);
                            assert(bundle_languages(before).contains(m));
                            let j = choose|j: int| 0 <= j < pre.len() && language_tag(#[trigger] pre[j].tag@) == Some(m);
                            assert(post[j] == pre[j]);
                        } else {
                            assert(post[i as int] == sources@[i as int]);
                        }
                    }
                    if source_languages(post).contains(m) {
                        let j = choose|j: int| 0 <= j < post.len() && language_tag(#[trigger] post[j].tag@) == Some(m);
                        if j == i {
                            assert(bundles@[w].language@ == m);
                        } else {
                            assert(pre[j] == post[j]);
                            assert(source_languages(pre).contains(m));
                            assert(bundle_languages(before).contains(m));
                            let k = choose|k: int| 0 <= k < before.len() && #[trigger] before[k].language@ == m;
                            if m != l {
                                assert(bundles@[k] == before[k]);
                            } else {
                                assert(bundles@[w].language@ == m);
                            }
                        }
                    }
                }
                assert(bundle_languages(bundles@) =~= source_languages(post));
                assert(post.drop_last() =~= pre);
                assert forall|k: int| 0 <= k < bundles@.len() implies bundle_messages(#[trigger] bundles@[k].bundle)
                    == messages_of_language(post, bundles@[k].language@) && bundle_formats(bundles@[k].bundle)
                    == formats_of_language(post, bundles@[k].language@) by {
                    if k == w {
                    } else {
                        assert(bundles@[k] == before[k]);
                        assert(bundles@[k].language@ != l);
                    }
                }
            }
            i = i + 1;
        }
        proof {
            assert(sources@.subrange(0, n as int) =~= sources@);
            lemma_bundles_view(bundles@);
            let result = Localizer { bundles };
            assert(result@ == bundles_view(bundles@));
            assert forall|m: Seq<char>| bundles_view(bundles@).contains_key(m) <==> bundle_languages(bundles@).contains(m) by {
                if bundle_languages(bundles@).contains(m) {
                    let k = choose|k: int| 0 <= k < bundles@.len() && #[trigger] bundles@[k].language@ == m;
                    assert(bundles_view(bundles@).contains_key(bundles@[k].language@));
                }
            }
            assert(bundles_view(bundles@).dom() =~= source_languages(sources@));
            assert forall|m: Seq<char>| #[trigger] bundles_view(bundles@).contains_key(m) implies bundles_view(bundles@)[m] == messages_of_language(sources@, m)
                && result.formats(m) == formats_of_language(sources@, m) by {
                let k = choose|k: int| 0 <= k < bundles@.len() && bundles@[k].language@ == m;
                if result.formats(m) {
                    let k2 = choose|k2: int| 0 <= k2 < bundles@.len() && bundles@[k2].language@ == m && bundle_formats(bundles@[k2].bundle);
                    assert(k2 == k);
                }
            }
        }
        Ok(Localizer { bundles })
    }

    /// No language has two bundles.
    #[verifier::type_invariant]
    closed spec fn inv(self) -> bool {
        languages_distinct(self.bundles@)
    }

    /// Whether formatting the messages of `language` returns.
    pub closed spec fn formats(&self, language: Seq<char>) -> bool {
        exists|k: int|
            0 <= k < self.bundles@.len() && #[trigger] self.bundles@[k].language@ == language
                && bundle_formats(self.bundles@[k].bundle)
    }

    /// Whether there are texts for `language`.
    pub fn has_language(&self, language: &str) -> (r: bool)
        ensures
            r == self@.contains_key(language@),
    {
        proof {
            use_type_invariant(self);
            lemma_bundles_view(self.bundles@);
        }
        match find_language(&self.bundles, language) {
            Some(p) => {
                assert(self@.contains_key(self.bundles@[p as int].language@));
                true
            },
            None => false,
        }
    }
}

/// The texts of the language `lang`, which the localizer has.
pub fn for_language<'a>(localizer: &'a Localizer, lang: String) -> (t: Translator<'a>)
    requires
        localizer@.contains_key(lang@),
    ensures
        t@ == localizer@[lang@],
        t.spec_language() == lang@,
        t.formats() == localizer.formats(lang@),
{
    proof {
        use_type_invariant(localizer);
        lemma_bundles_view(localizer.bundles@);
    }
    match find_language(&localizer.bundles, lang.as_str()) {
        Some(p) => {
            assert(localizer@.contains_key(localizer.bundles@[p as int].language@));
            proof {
                if localizer.formats(lang@) {
                    let k = choose|k: int| 0 <= k < localizer.bundles@.len() && #[trigger] localizer.bundles@[k].language@ == lang@
                        && bundle_formats(localizer.bundles@[k].bundle);
                    assert(k == p);
                }
            }
            Translator { language: lang, bundle: &localizer.bundles[p].bundle }
        },
        None => {
            proof {
                let k = choose|k: int| 0 <= k < localizer.bundles@.len() && localizer.bundles@[k].language@ == lang@;
            }
            Translator { language: lang, bundle: &localizer.bundles[0].bundle }
        },
    }
}

/// The language of a visitor (that of the language cookie, else the
/// default) and its texts, which the localizer has.
pub fn extract_language<'a>(localizer: &'a Localizer, language_cookie: Option<String>) -> (r: (
    String,
    Translator<'a>,
))
    requires
        localizer@.contains_key(language_of(cookie_view(language_cookie))),
    ensures
        r.0@ == language_of(cookie_view(language_cookie)),
        r.1@ == localizer@[r.0@],
        r.1.spec_language() == r.0@,
        r.1.formats() == localizer.formats(r.0@),
{
    let lang = cookie_language(language_cookie);
    let translator = for_language(localizer, lang.clone());
    (lang, translator)
}

/// Whether `path` names a Fluent source file: it ends in `.ftl`.
pub open spec fn is_ftl_path(path: Seq<char>) -> bool {
    path.len() >= 4 && path.subrange(path.len() - 4, path.len() as int) == ".ftl"@
}

/// Whether the file at `path` holds the Fluent source of a language: its
/// name ends in `.ftl`.
pub fn is_locale_file_name(path: &str) -> (r: bool)
    ensures
        r == is_ftl_path(path@),
{
    let n = path.unicode_len();
    if n < 4 {
        return false;
    }
    let tail = path.substring_char(n - 4, n);
    String::from_str(tail) == String::from_str(".ftl")
}

} // verus!
