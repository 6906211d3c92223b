//! Versioned gatherer registry: resolves a gatherer reference of the form
//! `"<name>"` or `"<name>@<version>"` to the concrete gatherer handle
//! registered under that name and version. Built once through
//! [`GatherersRegistryBuilder`] and immutable thereafter.
//!
//! When no version is given, the lexicographically maximal registered version
//! string is selected; this is deliberately plain string ordering, not a
//! numeric or semantic one (so `"v9"` ranks above `"v10"`).

use crate::gatherers::facts::str_eq;
use vstd::prelude::*;
use vstd::string::StrSliceExecFns;

verus! {

broadcast use {
    vstd::seq_lib::group_seq_properties,
    vstd::seq_lib::group_seq_lib_default,
    vstd::seq::Seq::group_seq_extra,
    vstd::utf8::char_u32_cast,
};

/// How resolving a gatherer reference can fail.
#[derive(Clone, PartialEq, Eq, Debug)]
pub enum RegistryErrors {
    /// The referenced name, or name and version, is not registered; the
    /// original lookup string is preserved for diagnostics.
    GathererNotFoundError(String),
    /// The reference holds more than one `@` separator; the whole reference
    /// is preserved for diagnostics.
    GathererNameAndVersionError(String),
}

/// Mathematical value of a [`RegistryErrors`].
pub enum RegistryErrorsV {
    GathererNotFoundError(Seq<char>),
    GathererNameAndVersionError(Seq<char>),
}

impl View for RegistryErrors {
    type V = RegistryErrorsV;

    open spec fn view(&self) -> RegistryErrorsV {
        match self {
            RegistryErrors::GathererNotFoundError(s) => RegistryErrorsV::GathererNotFoundError(s@),
            RegistryErrors::GathererNameAndVersionError(s) => {
                RegistryErrorsV::GathererNameAndVersionError(s@)
            },
        }
    }
}

/// How many `@` separators `s` holds.
pub open spec fn sep_count(s: Seq<char>) -> nat
    decreases s.len(),
{
    if s.len() == 0 {
        0
    } else {
        sep_count(s.drop_last()) + (if s.last() == '@' {
            1nat
        } else {
            0nat
        })
    }
}

/// A separator occurrence gives a separator count of at least one.
proof fn lemma_sep_count_at_least_one(s: Seq<char>, i: int)
    requires
        0 <= i < s.len(),
        s[i] == '@',
    ensures
        sep_count(s) >= 1,
    decreases s.len(),
{
    if i < s.len() - 1 {
        lemma_sep_count_at_least_one(s.drop_last(), i);
    }
}

/// Two distinct separator occurrences give a separator count of at least two.
proof fn lemma_sep_count_at_least_two(s: Seq<char>, i: int, j: int)
    requires
        0 <= i < j < s.len(),
        s[i] == '@',
        s[j] == '@',
    ensures
        sep_count(s) >= 2,
    decreases s.len(),
{
    if j < s.len() - 1 {
        lemma_sep_count_at_least_two(s.drop_last(), i, j);
    } else {
        lemma_sep_count_at_least_one(s.drop_last(), i);
    }
}

/// Separator counts add up over concatenation.
pub proof fn lemma_sep_count_concat(a: Seq<char>, b: Seq<char>)
    ensures
        sep_count(a + b) == sep_count(a) + sep_count(b),
    decreases b.len(),
{
    if b.len() == 0 {
        assert(a + b =~= a);
    } else {
        assert((a + b).drop_last() =~= a + b.drop_last());
        lemma_sep_count_concat(a, b.drop_last());
    }
}

/// Parsing a gatherer reference on the `@` separator: no separator gives a
/// bare name, exactly one splits name and version, and more are rejected.
pub open spec fn parse_reference(s: Seq<char>) -> Option<(Seq<char>, Option<Seq<char>>)> {
    if sep_count(s) == 0 {
        Some((s, None))
    } else if sep_count(s) == 1 {
        let i = choose|i: int| 0 <= i < s.len() && s[i] == '@';
        Some((s.take(i), Some(s.skip(i + 1))))
    } else {
        None
    }
}

/// Splits a gatherer reference into its name and optional version.
///
/// `"name"` yields the whole string and no version, `"name@version"` yields
/// the two parts, and a reference with more than one `@` is rejected with
/// `GathererNameAndVersionError` carrying the whole reference.
pub fn extract_version_and_gatherer_name(gatherer_name: &str) -> (r: Result<
    (String, Option<String>),
    RegistryErrors,
>)
    ensures
        match parse_reference(gatherer_name@) {
            Some((name, version)) => {
                r matches Ok((n, v)) && n@ == name && match version {
                    Some(ver) => v matches Some(vs) && vs@ == ver,
                    None => v matches None,
                }
            },
            None => r matches Err(RegistryErrors::GathererNameAndVersionError(e)) && e@
                == gatherer_name@,
        },
{
    let s = gatherer_name;
    let n = s.unicode_len();
    let mut i: usize = 0;
    let mut count: usize = 0;
    let mut first: usize = 0;
    while i < n
        invariant
            i <= n,
            n == s@.len(),
            count <= i,
            count == sep_count(s@.take(i as int)),
            count > 0 ==> first < i && s@[first as int] == '@' && (forall|k: int|
                0 <= k < first ==> s@[k] != '@'),
            count == 0 ==> forall|k: int| 0 <= k < i ==> s@[k] != '@',
        decreases n - i,
    {
        let c = s.get_char(i);
        proof {
            assert(s@.take(i + 1).drop_last() =~= s@.take(i as int));
            assert(s@.take(i + 1).last() == s@[i as int]);
        }
        if c == '@' {
            if count == 0 {
                first = i;
            }
            count = count + 1;
        }
        i = i + 1;
    }
    proof {
        assert(s@.take(n as int) =~= s@);
    }
    if count == 0 {
        Ok((s.to_owned(), None))
    } else if count == 1 {
        proof {
            let w = choose|w: int| 0 <= w < s@.len() && s@[w] == '@';
            if w != first as int {
                if w < first as int {
                    lemma_sep_count_at_least_two(s@, w, first as int);
                } else {
                    lemma_sep_count_at_least_two(s@, first as int, w);
                }
            }
            assert(s@.take(w) == s@.subrange(0, first as int));
            assert(s@.skip(w + 1) == s@.subrange(first + 1, n as int));
        }
        let name = s.substring_char(0, first).to_owned();
        let version = s.substring_char(first + 1, n).to_owned();
        Ok((name, Some(version)))
    } else {
        Err(RegistryErrors::GathererNameAndVersionError(s.to_owned()))
    }
}

/// Plain lexicographic order on character sequences, by code point; a strict
/// prefix ranks below the longer string.
pub open spec fn lex_lt(a: Seq<char>, b: Seq<char>) -> bool
    decreases b.len(),
{
    if b.len() == 0 {
        false
    } else if a.len() == 0 {
        true
    } else if (a[0] as u32) < (b[0] as u32) {
        true
    } else if (a[0] as u32) > (b[0] as u32) {
        false
    } else {
        lex_lt(a.drop_first(), b.drop_first())
    }
}

/// Any two character sequences are lexicographically comparable.
pub proof fn lemma_lex_trichotomy(a: Seq<char>, b: Seq<char>)
    ensures
        lex_lt(a, b) || lex_lt(b, a) || a == b,
    decreases b.len(),
{
    if a.len() == 0 && b.len() == 0 {
        assert(a =~= b);
    } else if a.len() > 0 && b.len() > 0 {
        if (a[0] as u32) == (b[0] as u32) {
            vstd::utf8::char_u32_cast(a[0], a[0] as u32);
            vstd::utf8::char_u32_cast(b[0], b[0] as u32);
            assert(a[0] == b[0]);
            lemma_lex_trichotomy(a.drop_first(), b.drop_first());
            if a.drop_first() == b.drop_first() {
                assert(a.drop_first().len() == b.drop_first().len());
                assert(a.len() == b.len());
                assert forall|i: int| 0 <= i < a.len() implies a[i] == b[i] by {
                    if i > 0 {
                        assert(a[i] == a.drop_first()[i - 1]);
                        assert(b[i] == b.drop_first()[i - 1]);
                    }
                }
                assert(a =~= b);
            }
        }
    }
}

/// Lexicographic order is transitive.
pub proof fn lemma_lex_transitive(a: Seq<char>, b: Seq<char>, c: Seq<char>)
    requires
        lex_lt(a, b),
        lex_lt(b, c),
    ensures
        lex_lt(a, c),
    decreases c.len(),
{
    if a.len() > 0 && b.len() > 0 && c.len() > 0 {
        if (a[0] as u32) == (b[0] as u32) && (b[0] as u32) == (c[0] as u32) {
            lemma_lex_transitive(a.drop_first(), b.drop_first(), c.drop_first());
        }
    }
}

/// Compares two strings in the lexicographic order of [`lex_lt`].
fn str_lex_lt(a: &str, b: &str) -> (r: bool)
    ensures
        r == lex_lt(a@, b@),
{
    let alen = a.unicode_len();
    let blen = b.unicode_len();
    let mut i: usize = 0;
    while i < alen && i < blen
        invariant
            i <= alen,
            i <= blen,
            alen == a@.len(),
            blen == b@.len(),
            lex_lt(a@, b@) == lex_lt(a@.skip(i as int), b@.skip(i as int)),
        decreases alen - i,
    {
        let ca = a.get_char(i);
        let cb = b.get_char(i);
        proof {
            assert(a@.skip(i as int)[0] == a@[i as int]);
            assert(b@.skip(i as int)[0] == b@[i as int]);
        }
        if (ca as u32) < (cb as u32) {
            return true;
        }
        if (ca as u32) > (cb as u32) {
            return false;
        }
        proof {
            assert(a@.skip(i as int).drop_first() =~= a@.skip(i + 1));
            assert(b@.skip(i as int).drop_first() =~= b@.skip(i + 1));
        }
        i = i + 1;
    }
    proof {
        assert(a@.skip(i as int).len() == alen - i);
        assert(b@.skip(i as int).len() == blen - i);
    }
    i < blen
}

/// One registration: a gatherer handle filed under a name and a version.
pub struct GathererEntry<G> {
    pub name: String,
    pub version: String,
    pub gatherer: G,
}

/// Mathematical value of a [`GathererEntry`]: the name and version as
/// character sequences, beside the handle itself.
#[verifier::ext_equal]
pub struct GathererEntryV<G> {
    pub name: Seq<char>,
    pub version: Seq<char>,
    pub gatherer: G,
}

impl<G> View for GathererEntry<G> {
    type V = GathererEntryV<G>;

    open spec fn view(&self) -> GathererEntryV<G> {
        GathererEntryV { name: self.name@, version: self.version@, gatherer: self.gatherer }
    }
}

impl<G> DeepView for GathererEntry<G> {
    type V = GathererEntryV<G>;

    open spec fn deep_view(&self) -> GathererEntryV<G> {
        self.view()
    }
}

/// Whether no two entries are filed under the same name and version.
pub open spec fn distinct_pairs<G>(entries: Seq<GathererEntryV<G>>) -> bool {
    forall|i: int, j: int|
        0 <= i < j < entries.len() ==> !(entries[i].name == entries[j].name && entries[i].version
            == entries[j].version)
}

/// Whether some entry is filed under the given name and version.
pub open spec fn has_pair<G>(
    entries: Seq<GathererEntryV<G>>,
    name: Seq<char>,
    version: Seq<char>,
) -> bool {
    exists|i: int|
        0 <= i < entries.len() && entries[i].name == name && entries[i].version == version
}

/// Whether some entry is filed under the given name, whatever its version.
pub open spec fn has_name<G>(entries: Seq<GathererEntryV<G>>, name: Seq<char>) -> bool {
    exists|i: int| 0 <= i < entries.len() && entries[i].name == name
}

/// The handle of the first entry filed under the given name and version.
pub open spec fn gatherer_for<G>(
    entries: Seq<GathererEntryV<G>>,
    name: Seq<char>,
    version: Seq<char>,
) -> Option<G>
    decreases entries.len(),
{
    if entries.len() == 0 {
        None
    } else if entries[0].name == name && entries[0].version == version {
        Some(entries[0].gatherer)
    } else {
        gatherer_for(entries.drop_first(), name, version)
    }
}

/// The versions registered for the given name, in entry order.
pub open spec fn versions_of<G>(entries: Seq<GathererEntryV<G>>, name: Seq<char>) -> Seq<Seq<char>>
    decreases entries.len(),
{
    if entries.len() == 0 {
        Seq::empty()
    } else {
        let rest = versions_of(entries.drop_last(), name);
        if entries.last().name == name {
            rest.push(entries.last().version)
        } else {
            rest
        }
    }
}

/// The lexicographically maximal element of a non-empty sequence of version
/// strings.
pub open spec fn lex_max(versions: Seq<Seq<char>>) -> Seq<char>
    recommends
        versions.len() > 0,
    decreases versions.len(),
{
    if versions.len() <= 1 {
        versions[0]
    } else {
        let m = lex_max(versions.drop_last());
        if lex_lt(m, versions.last()) {
            versions.last()
        } else {
            m
        }
    }
}

/// The maximum is one of the versions and ranks at least as high as each.
pub proof fn lemma_lex_max_properties(versions: Seq<Seq<char>>)
    requires
        versions.len() > 0,
    ensures
        versions.contains(lex_max(versions)),
        forall|k: int|
            0 <= k < versions.len() ==> (versions[k] == lex_max(versions) || lex_lt(
                versions[k],
                lex_max(versions),
            )),
    decreases versions.len(),
{
    if versions.len() == 1 {
        assert(versions[0] == lex_max(versions));
    } else {
        let dl = versions.drop_last();
        let m = lex_max(dl);
        let last = versions.last();
        lemma_lex_max_properties(dl);
        lemma_lex_trichotomy(m, last);
        assert(dl.contains(m));
        let w = choose|w: int| 0 <= w < dl.len() && dl[w] == m;
        assert(versions[w] == m);
        if lex_lt(m, last) {
            assert forall|k: int|
                0 <= k < versions.len() implies (versions[k] == lex_max(versions) || lex_lt(
                versions[k],
                lex_max(versions),
            )) by {
                if k < versions.len() - 1 {
                    assert(versions[k] == dl[k]);
                    if dl[k] == m {
                        assert(lex_lt(versions[k], last));
                    } else {
                        lemma_lex_transitive(dl[k], m, last);
                    }
                }
            }
        } else {
            assert forall|k: int|
                0 <= k < versions.len() implies (versions[k] == lex_max(versions) || lex_lt(
                versions[k],
                lex_max(versions),
            )) by {
                if k < versions.len() - 1 {
                    assert(versions[k] == dl[k]);
                }
            }
        }
    }
}

/// A name with no registered version has an empty version list, and only
/// such a name does.
proof fn lemma_versions_of_empty<G>(entries: Seq<GathererEntryV<G>>, name: Seq<char>)
    ensures
        versions_of(entries, name).len() == 0 <==> (forall|i: int|
            0 <= i < entries.len() ==> entries[i].name != name),
    decreases entries.len(),
{
    if entries.len() > 0 {
        let dl = entries.drop_last();
        lemma_versions_of_empty(dl, name);
        if versions_of(entries, name).len() == 0 {
            assert forall|i: int| 0 <= i < entries.len() implies entries[i].name != name by {
                if i < entries.len() - 1 {
                    assert(dl[i] == entries[i]);
                }
            }
        }
        if forall|i: int| 0 <= i < entries.len() ==> entries[i].name != name {
            assert forall|i: int| 0 <= i < dl.len() implies dl[i].name != name by {
                assert(dl[i] == entries[i]);
            }
        }
    }
}

/// The first entry filed under a pair decides the lookup.
proof fn lemma_gatherer_for_at_index<G>(
    entries: Seq<GathererEntryV<G>>,
    name: Seq<char>,
    version: Seq<char>,
    k: int,
)
    requires
        0 <= k < entries.len(),
        entries[k].name == name && entries[k].version == version,
        forall|m: int|
            0 <= m < k ==> !(entries[m].name == name && entries[m].version == version),
    ensures
        gatherer_for(entries, name, version) == Some(entries[k].gatherer),
    decreases k,
{
    if k > 0 {
        lemma_gatherer_for_at_index(entries.drop_first(), name, version, k - 1);
    }
}

/// A pair filed under no entry resolves to nothing.
proof fn lemma_gatherer_for_none<G>(
    entries: Seq<GathererEntryV<G>>,
    name: Seq<char>,
    version: Seq<char>,
)
    requires
        forall|m: int|
            0 <= m < entries.len() ==> !(entries[m].name == name && entries[m].version == version),
    ensures
        gatherer_for(entries, name, version) is None,
    decreases entries.len(),
{
    if entries.len() > 0 {
        lemma_gatherer_for_none(entries.drop_first(), name, version);
    }
}

/// Files one registration into deduplicated entries: an entry already filed
/// under the same name and version is replaced in place, anything else keeps
/// its position, and a new pair is appended.
pub open spec fn upsert_entry<G>(
    entries: Seq<GathererEntryV<G>>,
    e: GathererEntryV<G>,
) -> Seq<GathererEntryV<G>>
    decreases entries.len(),
{
    if entries.len() == 0 {
        seq![e]
    } else if entries[0].name == e.name && entries[0].version == e.version {
        seq![e] + entries.drop_first()
    } else {
        seq![entries[0]] + upsert_entry(entries.drop_first(), e)
    }
}

/// The registrations of a builder collapsed to one entry per name and
/// version, the last registration of each pair winning.
pub open spec fn dedup_entries<G>(entries: Seq<GathererEntryV<G>>) -> Seq<GathererEntryV<G>>
    decreases entries.len(),
{
    if entries.len() == 0 {
        Seq::empty()
    } else {
        upsert_entry(dedup_entries(entries.drop_last()), entries.last())
    }
}

/// Filing into entries with distinct pairs keeps the pairs distinct, makes
/// the filed registration win its own pair's lookup, and disturbs no other
/// pair.
proof fn lemma_upsert_props<G>(entries: Seq<GathererEntryV<G>>, e: GathererEntryV<G>)
    requires
        distinct_pairs(entries),
    ensures
        distinct_pairs(upsert_entry(entries, e)),
        gatherer_for(upsert_entry(entries, e), e.name, e.version) == Some(e.gatherer),
        forall|n: Seq<char>, v: Seq<char>|
            !(n == e.name && v == e.version) ==> #[trigger] gatherer_for(
                upsert_entry(entries, e),
                n,
                v,
            ) == gatherer_for(entries, n, v),
        forall|n: Seq<char>, v: Seq<char>|
            #[trigger] has_pair(upsert_entry(entries, e), n, v) <==> (has_pair(entries, n, v) || (n
                == e.name && v == e.version)),
    decreases entries.len(),
{
    let up = upsert_entry(entries, e);
    if entries.len() == 0 {
        assert(up[0] == e);
        assert(up.drop_first() =~= Seq::<GathererEntryV<G>>::empty());
        assert forall|n: Seq<char>, v: Seq<char>| #[trigger]
            has_pair(up, n, v) <==> (has_pair(entries, n, v) || (n == e.name && v
            == e.version)) by {
            if n == e.name && v == e.version {
                assert(up[0].name == n && up[0].version == v);
            }
        }
    } else if entries[0].name == e.name && entries[0].version == e.version {
        let df = entries.drop_first();
        assert(up =~= seq![e] + df);
        assert(up[0] == e);
        assert(up.drop_first() =~= df);
        assert forall|i: int, j: int|
            0 <= i < j < up.len() implies !(up[i].name == up[j].name && up[i].version
            == up[j].version) by {
            assert(entries[i].name == up[i].name || i == 0);
            assert(up[j] == entries[j]);
        }
        assert forall|n: Seq<char>, v: Seq<char>|
            !(n == e.name && v == e.version) implies #[trigger] gatherer_for(up, n, v)
            == gatherer_for(entries, n, v) by {
            assert(gatherer_for(up, n, v) == gatherer_for(df, n, v));
        }
        assert forall|n: Seq<char>, v: Seq<char>| #[trigger]
            has_pair(up, n, v) <==> (has_pair(entries, n, v) || (n == e.name && v
            == e.version)) by {
            if has_pair(up, n, v) {
                let w = choose|w: int| 0 <= w < up.len() && up[w].name == n && up[w].version == v;
                if w == 0 {
                } else {
                    assert(entries[w].name == n && entries[w].version == v);
                }
            }
            if has_pair(entries, n, v) {
                let w = choose|w: int|
                    0 <= w < entries.len() && entries[w].name == n && entries[w].version == v;
                if w == 0 {
                    assert(up[0].name == n && up[0].version == v);
                } else {
                    assert(up[w].name == n && up[w].version == v);
                }
            }
            if n == e.name && v == e.version {
                assert(up[0].name == n && up[0].version == v);
            }
        }
    } else {
        let df = entries.drop_first();
        assert forall|i: int, j: int|
            0 <= i < j < df.len() implies !(df[i].name == df[j].name && df[i].version
            == df[j].version) by {
            assert(df[i] == entries[i + 1]);
            assert(df[j] == entries[j + 1]);
        }
        lemma_upsert_props(df, e);
        let rest = upsert_entry(df, e);
        assert(up =~= seq![entries[0]] + rest);
        assert(up[0] == entries[0]);
        assert(up.drop_first() =~= rest);
        assert(!has_pair(df, entries[0].name, entries[0].version)) by {
            if has_pair(df, entries[0].name, entries[0].version) {
                let w = choose|w: int|
                    0 <= w < df.len() && df[w].name == entries[0].name && df[w].version
                        == entries[0].version;
                assert(entries[w + 1].name == entries[0].name && entries[w + 1].version
                    == entries[0].version);
            }
        }
        assert(!has_pair(rest, entries[0].name, entries[0].version));
        assert forall|i: int, j: int|
            0 <= i < j < up.len() implies !(up[i].name == up[j].name && up[i].version
            == up[j].version) by {
            if i == 0 {
                assert(up[j] == rest[j - 1]);
                if up[j].name == entries[0].name && up[j].version == entries[0].version {
                    assert(has_pair(rest, entries[0].name, entries[0].version));
                }
            } else {
                assert(up[i] == rest[i - 1]);
                assert(up[j] == rest[j - 1]);
            }
        }
        assert(gatherer_for(up, e.name, e.version) == gatherer_for(rest, e.name, e.version));
        assert forall|n: Seq<char>, v: Seq<char>|
            !(n == e.name && v == e.version) implies #[trigger] gatherer_for(up, n, v)
            == gatherer_for(entries, n, v) by {
            assert(gatherer_for(rest, n, v) == gatherer_for(df, n, v));
            if entries[0].name == n && entries[0].version == v {
                assert(gatherer_for(up, n, v) == Some(up[0].gatherer));
                assert(gatherer_for(entries, n, v) == Some(entries[0].gatherer));
            } else {
                assert(gatherer_for(up, n, v) == gatherer_for(rest, n, v));
                assert(gatherer_for(entries, n, v) == gatherer_for(df, n, v));
            }
        }
        assert forall|n: Seq<char>, v: Seq<char>| #[trigger]
            has_pair(up, n, v) <==> (has_pair(entries, n, v) || (n == e.name && v
            == e.version)) by {
            if has_pair(up, n, v) {
                let w = choose|w: int| 0 <= w < up.len() && up[w].name == n && up[w].version == v;
                if w == 0 {
                    assert(entries[0].name == n && entries[0].version == v);
                } else {
                    assert(rest[w - 1].name == n && rest[w - 1].version == v);
                    assert(has_pair(rest, n, v));
                    if has_pair(df, n, v) {
                        let w2 = choose|w2: int|
                            0 <= w2 < df.len() && df[w2].name == n && df[w2].version == v;
                        assert(entries[w2 + 1].name == n && entries[w2 + 1].version == v);
                    }
                }
            }
            if has_pair(entries, n, v) {
                let w = choose|w: int|
                    0 <= w < entries.len() && entries[w].name == n && entries[w].version == v;
                if w == 0 {
                    assert(up[0].name == n && up[0].version == v);
                } else {
                    assert(df[w - 1].name == n && df[w - 1].version == v);
                    assert(has_pair(df, n, v));
                    assert(has_pair(rest, n, v));
                    let w2 = choose|w2: int|
                        0 <= w2 < rest.len() && rest[w2].name == n && rest[w2].version == v;
                    assert(up[w2 + 1].name == n && up[w2 + 1].version == v);
                }
            }
            if n == e.name && v == e.version {
                assert(has_pair(rest, n, v));
                let w2 = choose|w2: int|
                    0 <= w2 < rest.len() && rest[w2].name == n && rest[w2].version == v;
                assert(up[w2 + 1].name == n && up[w2 + 1].version == v);
            }
        }
    }
}

/// Collapsing a builder's registrations always leaves distinct pairs.
pub proof fn lemma_dedup_distinct<G>(entries: Seq<GathererEntryV<G>>)
    ensures
        distinct_pairs(dedup_entries(entries)),
    decreases entries.len(),
{
    if entries.len() > 0 {
        lemma_dedup_distinct(entries.drop_last());
        lemma_upsert_props(dedup_entries(entries.drop_last()), entries.last());
    }
}

/// Filing a registration whose pair keys the entry at `k`, and no earlier
/// entry, replaces exactly that entry.
proof fn lemma_upsert_at_index<G>(entries: Seq<GathererEntryV<G>>, e: GathererEntryV<G>, k: int)
    requires
        0 <= k < entries.len(),
        entries[k].name == e.name && entries[k].version == e.version,
        forall|m: int|
            0 <= m < k ==> !(entries[m].name == e.name && entries[m].version == e.version),
    ensures
        upsert_entry(entries, e) == entries.update(k, e),
    decreases k,
{
    if k == 0 {
        assert(upsert_entry(entries, e) =~= entries.update(0, e));
    } else {
        lemma_upsert_at_index(entries.drop_first(), e, k - 1);
        assert(upsert_entry(entries, e) =~= entries.update(k, e));
    }
}

/// Filing a registration whose pair keys no entry appends it.
proof fn lemma_upsert_new<G>(entries: Seq<GathererEntryV<G>>, e: GathererEntryV<G>)
    requires
        forall|m: int|
            0 <= m < entries.len() ==> !(entries[m].name == e.name && entries[m].version
                == e.version),
    ensures
        upsert_entry(entries, e) == entries.push(e),
    decreases entries.len(),
{
    if entries.len() == 0 {
        assert(upsert_entry(entries, e) =~= entries.push(e));
    } else {
        lemma_upsert_new(entries.drop_first(), e);
        assert(upsert_entry(entries, e) =~= entries.push(e));
    }
}

/// What resolving a reference against registry entries returns: a malformed
/// reference is rejected; a bare name selects its lexicographically maximal
/// registered version, failing when the name is unknown; a versioned
/// reference selects exactly that version, failing with the whole reference
/// when the pair is unknown.
pub open spec fn spec_resolve<G>(
    entries: Seq<GathererEntryV<G>>,
    reference: Seq<char>,
) -> Result<G, RegistryErrorsV> {
    match parse_reference(reference) {
        None => Err(RegistryErrorsV::GathererNameAndVersionError(reference)),
        Some((name, opt_version)) => match opt_version {
            None => {
                if !has_name(entries, name) {
                    Err(RegistryErrorsV::GathererNotFoundError(name))
                } else {
                    match gatherer_for(entries, name, lex_max(versions_of(entries, name))) {
                        Some(g) => Ok(g),
                        None => Err(RegistryErrorsV::GathererNotFoundError(reference)),
                    }
                }
            },
            Some(version) => match gatherer_for(entries, name, version) {
                Some(g) => Ok(g),
                None => Err(RegistryErrorsV::GathererNotFoundError(reference)),
            },
        },
    }
}

/// Resolves versioned gatherer references to the registered handles; built
/// once through [`GatherersRegistryBuilder`] and immutable thereafter, so it
/// is safe to share read-only across concurrent callers.
pub struct GatherersRegistry<G> {
    gatherers: Vec<GathererEntry<G>>,
}

impl<G> View for GatherersRegistry<G> {
    type V = Seq<GathererEntryV<G>>;

    /// The registered entries, in order.
    closed spec fn view(&self) -> Seq<GathererEntryV<G>> {
        self.gatherers.deep_view()
    }
}

impl<G> GatherersRegistry<G> {
    /// Well-formed: every name and version pair is registered at most once.
    pub open spec fn wf(&self) -> bool {
        distinct_pairs(self@)
    }

    /// Resolves a gatherer reference, `"<name>"` or `"<name>@<version>"`, to
    /// the handle registered under it, exactly as [`spec_resolve`] says.
    #[verifier::loop_isolation(false)]
    pub fn get_gatherer(&self, name: String) -> (r: Result<&G, RegistryErrors>)
        ensures
            match spec_resolve(self@, name@) {
                Ok(g) => r matches Ok(rg) && *rg == g,
                Err(e) => r matches Err(re) && re@ == e,
            },
    {
        let parts = match extract_version_and_gatherer_name(name.as_str()) {
            Ok(p) => p,
            Err(e) => {
                return Err(e);
            },
        };
        let (gatherer_name, explicit_version) = parts;
        let version = match explicit_version {
            Some(v) => v,
            None => {
                match self.get_latest_version_for_gatherer(gatherer_name.as_str()) {
                    Ok(v) => v,
                    Err(e) => {
                        return Err(e);
                    },
                }
            },
        };
        let mut i: usize = 0;
        while i < self.gatherers.len()
            invariant
                i <= self.gatherers.len(),
                forall|m: int|
                    0 <= m < i ==> !(self@[m].name == gatherer_name@ && self@[m].version
                        == version@),
            decreases self.gatherers.len() - i,
        {
            proof {
                assert(self@[i as int] == self.gatherers@[i as int].deep_view());
            }
            if str_eq(self.gatherers[i].name.as_str(), gatherer_name.as_str()) && str_eq(
                self.gatherers[i].version.as_str(),
                version.as_str(),
            ) {
                proof {
                    lemma_gatherer_for_at_index(self@, gatherer_name@, version@, i as int);
                }
                return Ok(&self.gatherers[i].gatherer);
            }
            i = i + 1;
        }
        proof {
            lemma_gatherer_for_none(self@, gatherer_name@, version@);
        }
        Err(RegistryErrors::GathererNotFoundError(name))
    }

    /// The lexicographically maximal version registered for `name`, or
    /// not-found when the name has no registration at all.
    fn get_latest_version_for_gatherer(&self, name: &str) -> (r: Result<String, RegistryErrors>)
        ensures
            match r {
                Ok(v) => has_name(self@, name@) && v@ == lex_max(versions_of(self@, name@)),
                Err(e) => !has_name(self@, name@) && e@ == RegistryErrorsV::GathererNotFoundError(
                    name@,
                ),
            },
    {
        let mut best: Option<String> = None;
        let mut i: usize = 0;
        while i < self.gatherers.len()
            invariant
                i <= self.gatherers.len(),
                match best {
                    None => versions_of(self@.take(i as int), name@).len() == 0,
                    Some(b) => versions_of(self@.take(i as int), name@).len() > 0 && b@ == lex_max(
                        versions_of(self@.take(i as int), name@),
                    ),
                },
            decreases self.gatherers.len() - i,
        {
            let ghost pv = versions_of(self@.take(i as int), name@);
            proof {
                assert(self@[i as int] == self.gatherers@[i as int].deep_view());
                assert(self@.take(i + 1).drop_last() =~= self@.take(i as int));
                assert(self@.take(i + 1).last() == self@[i as int]);
            }
            let entry = &self.gatherers[i];
            if str_eq(entry.name.as_str(), name) {
                let replace = match &best {
                    None => true,
                    Some(b) => str_lex_lt(b.as_str(), entry.version.as_str()),
                };
                proof {
                    assert(versions_of(self@.take(i + 1), name@) == pv.push(entry.version@));
                    assert((pv.push(entry.version@)).drop_last() =~= pv);
                    assert((pv.push(entry.version@)).last() == entry.version@);
                }
                if replace {
                    best = Some(entry.version.clone());
                }
            } else {
                proof {
                    assert(versions_of(self@.take(i + 1), name@) == pv);
                }
            }
            i = i + 1;
        }
        proof {
            assert(self@.take(self.gatherers.len() as int) =~= self@);
        }
        match best {
            Some(v) => {
                proof {
                    if !has_name(self@, name@) {
                        lemma_versions_of_empty(self@, name@);
                    }
                }
                Ok(v)
            },
            None => {
                proof {
                    lemma_versions_of_empty(self@, name@);
                }
                Err(RegistryErrors::GathererNotFoundError(name.to_owned()))
            },
        }
    }

    /// The versions registered for `name`, in entry order.
    #[verifier::loop_isolation(false)]
    fn versions_vec_for(&self, name: &str) -> (r: Vec<String>)
        ensures
            r.deep_view() == versions_of(self@, name@),
    {
        let mut r: Vec<String> = Vec::new();
        proof {
            assert(r.deep_view() =~= versions_of(self@.take(0), name@));
        }
        let mut i: usize = 0;
        while i < self.gatherers.len()
            invariant
                i <= self.gatherers.len(),
                r.deep_view() == versions_of(self@.take(i as int), name@),
            decreases self.gatherers.len() - i,
        {
            let ghost prev = r.deep_view();
            proof {
                assert(self@[i as int] == self.gatherers@[i as int].deep_view());
                assert(self@.take(i + 1).drop_last() =~= self@.take(i as int));
                assert(self@.take(i + 1).last() == self@[i as int]);
            }
            if str_eq(self.gatherers[i].name.as_str(), name) {
                r.push(self.gatherers[i].version.clone());
                proof {
                    assert(r.deep_view() =~= prev.push(self@[i as int].version));
                }
            }
            i = i + 1;
        }
        proof {
            assert(self@.take(self.gatherers.len() as int) =~= self@);
        }
        r
    }

    /// The distinct registered names, in order of first appearance.
    fn distinct_names(&self) -> (r: Vec<String>)
        ensures
            r.deep_view() == names_of(self@),
    {
        let mut r: Vec<String> = Vec::new();
        proof {
            assert(r.deep_view() =~= names_of(self@.take(0)));
        }
        let mut i: usize = 0;
        while i < self.gatherers.len()
            invariant
                i <= self.gatherers.len(),
                r.deep_view() == names_of(self@.take(i as int)),
            decreases self.gatherers.len() - i,
        {
            let ghost prev = r.deep_view();
            proof {
                assert(self@[i as int] == self.gatherers@[i as int].deep_view());
                assert(self@.take(i + 1).drop_last() =~= self@.take(i as int));
                assert(self@.take(i + 1).last() == self@[i as int]);
            }
            let mut k: usize = 0;
            while k < r.len()
                invariant
                    k <= r.len(),
                    i < self.gatherers.len(),
                    prev == r.deep_view(),
                    forall|m: int| 0 <= m < k ==> prev[m] != self@[i as int].name,
                ensures
                    k <= r.len(),
                    prev == r.deep_view(),
                    forall|m: int| 0 <= m < k ==> prev[m] != self@[i as int].name,
                    k < r.len() ==> prev[k as int] == self@[i as int].name,
                decreases r.len() - k,
            {
                proof {
                    assert(prev[k as int] == r@[k as int]@);
                    assert(self@[i as int] == self.gatherers@[i as int].deep_view());
                }
                if str_eq(r[k].as_str(), self.gatherers[i].name.as_str()) {
                    break ;
                }
                k = k + 1;
            }
            let seen = k < r.len();
            if seen {
                proof {
                    assert(prev.contains(self@[i as int].name));
                }
            } else {
                proof {
                    assert(!prev.contains(self@[i as int].name));
                }
                r.push(self.gatherers[i].name.clone());
                proof {
                    assert(r.deep_view() =~= prev.push(self@[i as int].name));
                }
            }
            i = i + 1;
        }
        proof {
            assert(self@.take(self.gatherers.len() as int) =~= self@);
        }
        r
    }

    /// One line per registered name, summarizing all of its versions in
    /// ascending lexicographic order, e.g. `"checker - v1/v2"`. Names come in
    /// order of first registration.
    #[verifier::loop_isolation(false)]
    pub fn inspect_gatherers(&self) -> (r: Vec<String>)
        ensures
            r@.len() == names_of(self@).len(),
            forall|i: int|
                0 <= i < r@.len() ==> r@[i]@ == gatherer_line(self@, names_of(self@)[i]),
    {
        let names = self.distinct_names();
        let mut r: Vec<String> = Vec::new();
        let mut i: usize = 0;
        while i < names.len()
            invariant
                i <= names.len(),
                r@.len() == i,
                forall|m: int| 0 <= m < i ==> r@[m]@ == gatherer_line(self@, names_of(self@)[m]),
            decreases names.len() - i,
        {
            proof {
                assert(names.deep_view()[i as int] == names@[i as int]@);
            }
            let name = &names[i];
            let versions = self.versions_vec_for(name.as_str());
            let sorted = sort_version_strings(&versions);
            let joined = join_version_strings(&sorted);
            let mut line = name.clone();
            line.append(" - ");
            line.append(joined.as_str());
            proof {
                assert(line@ == gatherer_line(self@, names_of(self@)[i as int]));
            }
            r.push(line);
            i = i + 1;
        }
        r
    }
}

/// Rearranges version strings into ascending lexicographic order.
fn sort_version_strings(versions: &Vec<String>) -> (r: Vec<String>)
    ensures
        r.deep_view() == sort_versions(versions.deep_view()),
{
    let ghost vv = versions.deep_view();
    let mut r: Vec<String> = Vec::new();
    proof {
        assert(r.deep_view() =~= sort_versions(vv.take(0)));
    }
    let mut i: usize = 0;
    while i < versions.len()
        invariant
            i <= versions.len(),
            vv == versions.deep_view(),
            r.deep_view() == sort_versions(vv.take(i as int)),
        decreases versions.len() - i,
    {
        let ghost prev = r.deep_view();
        proof {
            assert(vv[i as int] == versions@[i as int]@);
            assert(vv.take(i + 1).drop_last() =~= vv.take(i as int));
            assert(vv.take(i + 1).last() == vv[i as int]);
        }
        let v = &versions[i];
        let mut k: usize = 0;
        while k < r.len()
            invariant
                k <= r.len(),
                prev == r.deep_view(),
                forall|m: int| 0 <= m < k ==> !lex_lt(v@, prev[m]),
            ensures
                k <= r.len(),
                prev == r.deep_view(),
                forall|m: int| 0 <= m < k ==> !lex_lt(v@, prev[m]),
                k < r.len() ==> lex_lt(v@, prev[k as int]),
            decreases r.len() - k,
        {
            proof {
                assert(prev[k as int] == r@[k as int]@);
            }
            if str_lex_lt(v.as_str(), r[k].as_str()) {
                break ;
            }
            k = k + 1;
        }
        proof {
            lemma_insert_sorted_at(prev, v@, k as int);
        }
        r.insert(k, v.clone());
        proof {
            assert(r.deep_view() =~= prev.insert(k as int, vv[i as int]));
        }
        i = i + 1;
    }
    proof {
        assert(vv.take(versions.len() as int) =~= vv);
    }
    r
}

/// Joins version strings with `/` between them.
#[verifier::loop_isolation(false)]
fn join_version_strings(versions: &Vec<String>) -> (r: String)
    ensures
        r@ == joined_versions(versions.deep_view()),
{
    let ghost vv = versions.deep_view();
    let mut r = String::new();
    let mut i: usize = 0;
    while i < versions.len()
        invariant
            i <= versions.len(),
            r@ == joined_versions(vv.take(i as int)),
        decreases versions.len() - i,
    {
        proof {
            assert(vv[i as int] == versions@[i as int]@);
            assert(vv.take(i + 1).drop_last() =~= vv.take(i as int));
            assert(vv.take(i + 1).last() == vv[i as int]);
        }
        if i > 0 {
            r.append("/");
        }
        r.append(versions[i].as_str());
        proof {
            if i == 0 {
                assert(r@ =~= joined_versions(vv.take(1)));
            }
        }
        i = i + 1;
    }
    proof {
        assert(vv.take(versions.len() as int) =~= vv);
    }
    r
}

/// Accumulates gatherer registrations before the agent starts consuming
/// events, then freezes them into an immutable [`GatherersRegistry`].
pub struct GatherersRegistryBuilder<G> {
    gatherers: Vec<GathererEntry<G>>,
}

impl<G> View for GatherersRegistryBuilder<G> {
    type V = Seq<GathererEntryV<G>>;

    /// The accumulated registrations, in order.
    closed spec fn view(&self) -> Seq<GathererEntryV<G>> {
        self.gatherers.deep_view()
    }
}

impl<G> GatherersRegistryBuilder<G> {
    /// An empty builder.
    pub fn new() -> (r: GatherersRegistryBuilder<G>)
        ensures
            r@ == Seq::<GathererEntryV<G>>::empty(),
    {
        let r = GatherersRegistryBuilder { gatherers: Vec::new() };
        proof {
            assert(r@ =~= Seq::<GathererEntryV<G>>::empty());
        }
        r
    }

    /// Registers one gatherer under a name and version. Registering the same
    /// pair again later overwrites this one when the registry is built: last
    /// write wins.
    pub fn add_gatherer(&mut self, name: &str, version: &str, gatherer: G)
        ensures
            final(self)@ == old(self)@.push(
                GathererEntryV { name: name@, version: version@, gatherer },
            ),
    {
        self.gatherers.push(
            GathererEntry { name: name.to_owned(), version: version.to_owned(), gatherer },
        );
        proof {
            assert(self@ =~= old(self)@.push(
                GathererEntryV { name: name@, version: version@, gatherer },
            ));
        }
    }

    /// Freezes the accumulated registrations into an immutable registry,
    /// collapsing repeated name and version pairs to the last registration.
    pub fn build_registry(self) -> (r: GatherersRegistry<G>)
        ensures
            r@ == dedup_entries(self@),
            r.wf(),
    {
        let ghost orig = self.gatherers.deep_view();
        let mut rest = self.gatherers;
        let mut out: Vec<GathererEntry<G>> = Vec::new();
        proof {
            assert(rest.deep_view() =~= orig.skip(0));
            assert(orig.take(0) =~= Seq::<GathererEntryV<G>>::empty());
            assert(out.deep_view() =~= dedup_entries(orig.take(0)));
        }
        while rest.len() > 0
            invariant
                rest.len() <= orig.len(),
                rest.deep_view() == orig.skip(orig.len() - rest.len()),
                out.deep_view() == dedup_entries(orig.take(orig.len() - rest.len())),
                distinct_pairs(out.deep_view()),
            decreases rest.len(),
        {
            let ghost done = orig.len() - rest.len();
            let ghost old_rest = rest.deep_view();
            let e = rest.remove(0);
            let ghost ev = e.deep_view();
            proof {
                assert(ev == old_rest[0]);
                assert(ev == orig[done]);
                assert(rest.deep_view() =~= orig.skip(done + 1));
            }
            let ghost prev = out.deep_view();
            let mut k: usize = 0;
            let mut found: bool = false;
            while k < out.len()
                invariant_except_break
                    !found,
                invariant
                    k <= out.len(),
                    prev == out.deep_view(),
                    ev == e.deep_view(),
                    forall|m: int|
                        0 <= m < k ==> !(prev[m].name == ev.name && prev[m].version == ev.version),
                ensures
                    prev == out.deep_view(),
                    ev == e.deep_view(),
                    found ==> k < out.len() && prev[k as int].name == ev.name && prev[k as int].version
                        == ev.version && (forall|m: int|
                        0 <= m < k ==> !(prev[m].name == ev.name && prev[m].version == ev.version)),
                    !found ==> forall|m: int|
                        0 <= m < prev.len() ==> !(prev[m].name == ev.name && prev[m].version
                            == ev.version),
                decreases out.len() - k,
            {
                proof {
                    assert(prev[k as int] == out@[k as int].deep_view());
                }
                if str_eq(out[k].name.as_str(), e.name.as_str()) && str_eq(
                    out[k].version.as_str(),
                    e.version.as_str(),
                ) {
                    found = true;
                    break ;
                }
                k = k + 1;
            }
            proof {
                lemma_upsert_props(prev, ev);
            }
            if found {
                out[k] = e;
                proof {
                    lemma_upsert_at_index(prev, ev, k as int);
                    assert(out.deep_view() =~~= upsert_entry(prev, ev));
                }
            } else {
                out.push(e);
                proof {
                    lemma_upsert_new(prev, ev);
                    assert(out.deep_view() =~~= upsert_entry(prev, ev));
                }
            }
            proof {
                assert(orig.take(done + 1).drop_last() =~= orig.take(done));
                assert(orig.take(done + 1).last() == orig[done]);
                assert(dedup_entries(orig.take(done + 1)) == upsert_entry(
                    dedup_entries(orig.take(done)),
                    orig[done],
                ));
            }
        }
        proof {
            assert(orig.take(orig.len() as int) =~= orig);
        }
        GatherersRegistry { gatherers: out }
    }
}

/// The distinct gatherer names among the entries, in order of first
/// appearance.
pub open spec fn names_of<G>(entries: Seq<GathererEntryV<G>>) -> Seq<Seq<char>>
    decreases entries.len(),
{
    if entries.len() == 0 {
        Seq::empty()
    } else {
        let rest = names_of(entries.drop_last());
        if rest.contains(entries.last().name) {
            rest
        } else {
            rest.push(entries.last().name)
        }
    }
}

/// Inserts a version into a lexicographically sorted list, before the first
/// strictly greater element.
pub open spec fn insert_sorted(versions: Seq<Seq<char>>, v: Seq<char>) -> Seq<Seq<char>>
    decreases versions.len(),
{
    if versions.len() == 0 {
        seq![v]
    } else if lex_lt(v, versions[0]) {
        seq![v] + versions
    } else {
        seq![versions[0]] + insert_sorted(versions.drop_first(), v)
    }
}

/// The versions rearranged into ascending lexicographic order by insertion.
pub open spec fn sort_versions(versions: Seq<Seq<char>>) -> Seq<Seq<char>>
    decreases versions.len(),
{
    if versions.len() == 0 {
        Seq::empty()
    } else {
        insert_sorted(sort_versions(versions.drop_last()), versions.last())
    }
}

/// The versions joined with `/` between them.
pub open spec fn joined_versions(versions: Seq<Seq<char>>) -> Seq<char>
    decreases versions.len(),
{
    if versions.len() == 0 {
        Seq::empty()
    } else if versions.len() == 1 {
        versions[0]
    } else {
        joined_versions(versions.drop_last()) + "/"@ + versions.last()
    }
}

/// The summary line of one registered name: the name and all of its versions
/// in ascending lexicographic order.
pub open spec fn gatherer_line<G>(entries: Seq<GathererEntryV<G>>, name: Seq<char>) -> Seq<char> {
    name + " - "@ + joined_versions(sort_versions(versions_of(entries, name)))
}

/// Inserting before the first strictly greater element is what
/// [`insert_sorted`] does.
proof fn lemma_insert_sorted_at(s: Seq<Seq<char>>, v: Seq<char>, k: int)
    requires
        0 <= k <= s.len(),
        forall|m: int| 0 <= m < k ==> !lex_lt(v, s[m]),
        k < s.len() ==> lex_lt(v, s[k]),
    ensures
        insert_sorted(s, v) == s.insert(k, v),
    decreases s.len(),
{
    if k == 0 {
        if s.len() == 0 {
            assert(insert_sorted(s, v) =~= s.insert(0, v));
        } else {
            assert(insert_sorted(s, v) =~= s.insert(0, v));
        }
    } else {
        let df = s.drop_first();
        assert(!lex_lt(v, s[0]));
        assert forall|m: int| 0 <= m < k - 1 implies !lex_lt(v, df[m]) by {
            assert(df[m] == s[m + 1]);
        }
        if k - 1 < df.len() {
            assert(df[k - 1] == s[k]);
        }
        lemma_insert_sorted_at(df, v, k - 1);
        assert(insert_sorted(s, v) =~= s.insert(k, v));
    }
}

/// The last registration of a pair decides what the built registry resolves
/// that pair to.
proof fn lemma_dedup_lookup<G>(entries: Seq<GathererEntryV<G>>, i: int)
    requires
        0 <= i < entries.len(),
        forall|j: int|
            i < j < entries.len() ==> !(entries[j].name == entries[i].name && entries[j].version
                == entries[i].version),
    ensures
        gatherer_for(dedup_entries(entries), entries[i].name, entries[i].version) == Some(
            entries[i].gatherer,
        ),
    decreases entries.len(),
{
    let dl = entries.drop_last();
    let d = dedup_entries(dl);
    lemma_dedup_distinct(dl);
    lemma_upsert_props(d, entries.last());
    if i == entries.len() - 1 {
    } else {
        assert forall|j: int|
            i < j < dl.len() implies !(dl[j].name == dl[i].name && dl[j].version
            == dl[i].version) by {
            assert(dl[j] == entries[j]);
            assert(dl[i] == entries[i]);
        }
        lemma_dedup_lookup(dl, i);
        assert(dl[i] == entries[i]);
        assert(!(entries[i].name == entries.last().name && entries[i].version
            == entries.last().version));
        assert(gatherer_for(
            upsert_entry(d, entries.last()),
            entries[i].name,
            entries[i].version,
        ) == gatherer_for(d, entries[i].name, entries[i].version));
    }
}

/// A separator-free name and version joined by `@` parse back to the pair.
#[verifier::spinoff_prover]
#[verifier::rlimit(100)]
pub proof fn lemma_parse_name_version(n: Seq<char>, v: Seq<char>)
    requires
        sep_count(n) == 0,
        sep_count(v) == 0,
    ensures
        parse_reference(n + seq!['@'] + v) == Some((n, Some(v))),
{
    let reference = n + seq!['@'] + v;
    assert(seq!['@'].len() == 1);
    assert(seq!['@'].drop_last() =~= Seq::<char>::empty());
    assert(seq!['@'].last() == '@');
    assert(sep_count(Seq::<char>::empty()) == 0);
    assert(sep_count(seq!['@']) == 1);
    lemma_sep_count_concat(n, seq!['@']);
    lemma_sep_count_concat(n + seq!['@'], v);
    assert(sep_count(reference) == 1);
    assert((n + seq!['@'])[n.len() as int] == '@');
    assert(reference[n.len() as int] == '@');
    assert(exists|w: int| 0 <= w < reference.len() && reference[w] == '@') by {
        assert(0 <= n.len() < reference.len() && reference[n.len() as int] == '@');
    }
    let w = choose|w: int| 0 <= w < reference.len() && reference[w] == '@';
    assert(0 <= w < reference.len() && reference[w] == '@');
    if w != n.len() {
        if w < n.len() {
            lemma_sep_count_at_least_two(reference, w, n.len() as int);
        } else {
            lemma_sep_count_at_least_two(reference, n.len() as int, w);
        }
    }
    assert(reference.take(w) =~= n);
    assert(reference.skip(w + 1) =~= v);
}

/// Resolve round-trip law: a gatherer registered under a separator-free name
/// and version, and not overwritten by a later registration of the same pair,
/// is exactly what the built registry resolves `"name@version"` to.
#[verifier::spinoff_prover]
#[verifier::rlimit(100)]
pub proof fn lemma_resolve_round_trip<G>(entries: Seq<GathererEntryV<G>>, i: int)
    requires
        0 <= i < entries.len(),
        sep_count(entries[i].name) == 0,
        sep_count(entries[i].version) == 0,
        forall|j: int|
            i < j < entries.len() ==> !(entries[j].name == entries[i].name && entries[j].version
                == entries[i].version),
    ensures
        spec_resolve(
            dedup_entries(entries),
            entries[i].name + seq!['@'] + entries[i].version,
        ) == Ok::<G, RegistryErrorsV>(entries[i].gatherer),
{
    lemma_parse_name_version(entries[i].name, entries[i].version);
    lemma_dedup_lookup(entries, i);
}

/// Malformed-reference law: a reference with more than one `@` separator is
/// rejected with the whole reference, whatever is registered.
pub proof fn lemma_resolve_rejects_malformed_reference<G>(
    entries: Seq<GathererEntryV<G>>,
    reference: Seq<char>,
)
    requires
        sep_count(reference) >= 2,
    ensures
        spec_resolve(entries, reference) == Err::<G, RegistryErrorsV>(
            RegistryErrorsV::GathererNameAndVersionError(reference),
        ),
{
}

/// Unknown-name law: a bare, separator-free reference whose name has no
/// registration resolves to not-found carrying that very name.
pub proof fn lemma_resolve_unknown_name<G>(entries: Seq<GathererEntryV<G>>, reference: Seq<char>)
    requires
        sep_count(reference) == 0,
        !has_name(entries, reference),
    ensures
        spec_resolve(entries, reference) == Err::<G, RegistryErrorsV>(
            RegistryErrorsV::GathererNotFoundError(reference),
        ),
{
}

} // verus!
