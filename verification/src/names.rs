//! Names of keysets, of encryption keys and of the files that hold secrets.
use vstd::prelude::*;
use vstd::string::*;
use crate::order;
use crate::text;
use crate::vault;
use crate::vault::Generation;

verus! {

/// What the descriptions of all encryption keys begin with.
pub const KEY_PREFIX: &'static str = "tempkeys:key:";

/// The description of the key that marks a session keyring.
pub const SESSION_MARKER: &'static str = "tempkeys:session";

/// What the names of secret files end with.
pub const EXT: &'static str = ".enc";

/// Keyset names: letters, digits, `-`, `_` and `.`, of which the first is no `.`.
pub open spec fn is_set_name(s: Seq<char>) -> bool {
    &&& s.len() > 0
    &&& s[0] != '.'
    &&& forall|i: int| 0 <= i < s.len() ==> text::is_plain(#[trigger] s[i])
}

/// Whether a name can be that of a keyset.
fn valid_set(name: &str) -> (r: bool)
    ensures
        r == is_set_name(name@),
{
    let mut first: bool = true;
    for c in it: name.chars()
        invariant
            it.seq() == name@,
            first <==> it.index() == 0,
            it.index() > 0 ==> name@[0] != '.',
            forall|i: int| 0 <= i < it.index() ==> text::is_plain(#[trigger] name@[i]),
    {
        let ghost k = it.index() as int;
        assert(name@[k] == c);
        if !(text::alnum(c) || c == '-' || c == '_' || c == '.') {
            return false;
        }
        if first && c == '.' {
            return false;
        }
        first = false;
    }
    !first
}

/// Refuses what cannot be the name of a keyset.
pub fn check_set(name: &str) -> (r: Result<(), String>)
    ensures
        match r {
            Ok(_) => is_set_name(name@),
            Err(e) => !is_set_name(name@) && e@ == "invalid keyset name "@ + text::debug_text(
                name@,
            ),
        },
{
    if valid_set(name) {
        Ok(())
    } else {
        Err(text::join2("invalid keyset name ", text::quoted(name).as_str()))
    }
}

/// What the descriptions of a keyset's encryption keys begin with.
pub open spec fn set_prefix(set: Seq<char>) -> Seq<char> {
    KEY_PREFIX@ + set + ":"@
}

/// The description of a keyset's encryption key.
pub open spec fn key_description(set: Seq<char>, generation: Seq<u8>) -> Seq<char> {
    set_prefix(set) + vault::hex_text(generation)
}

/// What the descriptions of a keyset's encryption keys begin with.
pub fn key_prefix(set: &str) -> (r: String)
    ensures
        r@ == set_prefix(set@),
{
    text::join3(KEY_PREFIX, set, ":")
}

/// The description of a keyset's encryption key.
pub fn key_desc(set: &str, generation: &Generation) -> (r: String)
    ensures
        r@ == key_description(set@, generation@),
{
    let mut r = key_prefix(set);
    r.append(vault::hex(generation).as_str());
    r
}

/// A keyset name holds no colon.
proof fn lemma_no_colon(set: Seq<char>)
    requires
        is_set_name(set),
    ensures
        forall|i: int| 0 <= i < set.len() ==> set[i] != ':',
{
    assert forall|i: int| 0 <= i < set.len() implies set[i] != ':' by {
        assert(text::is_plain(set[i]));
    }
}

/// The description of an encryption key holds no NUL character.
pub proof fn lemma_description_plain(set: Seq<char>, generation: Seq<u8>)
    requires
        is_set_name(set),
    ensures
        !key_description(set, generation).contains('\0'),
{
    reveal_strlit("tempkeys:key:");
    reveal_strlit(":");
    let d = key_description(set, generation);
    if d.contains('\0') {
        let i = choose|i: int| 0 <= i < d.len() && d[i] == '\0';
        let n = KEY_PREFIX@.len() as int;
        if i < n {
            assert(d[i] == KEY_PREFIX@[i]);
        } else if i < n + set.len() {
            assert(d[i] == set[i - n]);
            assert(text::is_plain(set[i - n]));
        } else if i == n + set.len() {
            assert(d[i] == ':');
        } else {
            let k = i - n - set.len() - 1;
            assert(d[i] == vault::hex_text(generation)[k]);
        }
        assert(false);
    }
}

/// The descriptions of one keyset's keys are told from those of every other: they
/// alone begin with the keyset's prefix.
pub proof fn law_set_prefix(set: Seq<char>, other: Seq<char>, generation: Seq<u8>)
    requires
        is_set_name(set),
        is_set_name(other),
    ensures
        set_prefix(set).is_prefix_of(key_description(other, generation)) <==> set == other,
{
    reveal_strlit(":");
    lemma_no_colon(set);
    lemma_no_colon(other);
    let p = set_prefix(set);
    let d = key_description(other, generation);
    let n = KEY_PREFIX@.len() as int;
    if set == other {
        assert(d.subrange(0, p.len() as int) =~= p);
    }
    if p.is_prefix_of(d) {
        assert(p =~= d.subrange(0, p.len() as int));
        assert(p[n + set.len()] == ':');
        assert(d[n + other.len()] == ':');
        if set.len() < other.len() {
            assert(d[n + set.len()] == other[set.len() as int]);
        } else if set.len() > other.len() {
            assert(p[n + other.len()] == set[other.len() as int]);
            assert(p[n + other.len()] == d[n + other.len()]);
        }
        assert forall|i: int| 0 <= i < set.len() implies set[i] == other[i] by {
            assert(p[n + i] == set[i]);
            assert(d[n + i] == other[i]);
        }
        assert(set =~= other);
    }
}

/// A description names one keyset and one generation.
pub proof fn law_key_desc_injective(
    set: Seq<char>,
    generation: Seq<u8>,
    other: Seq<char>,
    other_generation: Seq<u8>,
)
    requires
        is_set_name(set),
        is_set_name(other),
        key_description(set, generation) == key_description(other, other_generation),
    ensures
        set == other,
        generation == other_generation,
{
    let d = key_description(set, generation);
    assert(d.subrange(0, set_prefix(set).len() as int) =~= set_prefix(set));
    law_set_prefix(set, other, other_generation);
    let n = set_prefix(set).len() as int;
    assert(d.skip(n) =~= vault::hex_text(generation));
    assert(key_description(other, other_generation).skip(n) =~= vault::hex_text(other_generation));
    vault::law_hex_injective(generation, other_generation);
}

/// The key that marks a session is none of the encryption keys: its description
/// does not begin as theirs do, while all of theirs do.
pub proof fn law_marker_apart(set: Seq<char>, generation: Seq<u8>)
    ensures
        !KEY_PREFIX@.is_prefix_of(SESSION_MARKER@),
        KEY_PREFIX@.is_prefix_of(key_description(set, generation)),
{
    reveal_strlit("tempkeys:key:");
    reveal_strlit("tempkeys:session");
    let d = key_description(set, generation);
    assert(d.subrange(0, KEY_PREFIX@.len() as int) =~= KEY_PREFIX@);
    if KEY_PREFIX@.is_prefix_of(SESSION_MARKER@) {
        assert(KEY_PREFIX@[9] == SESSION_MARKER@.subrange(0, KEY_PREFIX@.len() as int)[9]);
    }
}

/// What a directory lists: names of entries, `None` for one that is no text.
pub open spec fn listed(listing: Seq<Option<String>>) -> Seq<Option<Seq<char>>> {
    listing.map_values(
        |n: Option<String>|
            match n {
                Some(t) => Some(t@),
                None => None,
            },
    )
}

/// The key names of the secret files among the entries of a directory.
pub open spec fn stems(listing: Seq<Option<Seq<char>>>) -> Seq<Seq<char>>
    decreases listing.len(),
{
    if listing.len() == 0 {
        Seq::empty()
    } else {
        let front = stems(listing.drop_last());
        match listing.last() {
            Some(n) => if EXT@.is_suffix_of(n) {
                front.push(n.take(n.len() - EXT@.len()))
            } else {
                front
            },
            None => front,
        }
    }
}

/// The texts of a list.
pub open spec fn texts(list: Seq<String>) -> Seq<Seq<char>> {
    order::views(list)
}

/// Whether a list has the given texts, each as often, in the order of their bytes.
pub open spec fn sorted_from(list: Seq<Seq<char>>, all: Seq<Seq<char>>) -> bool {
    &&& order::ordered::<String>(list)
    &&& list.to_multiset() == all.to_multiset()
}

/// Names of the secret files in a keyset directory, sorted.
pub fn key_names(listing: &Vec<Option<String>>) -> (r: Vec<String>)
    ensures
        sorted_from(texts(r@), stems(listed(listing@))),
        r@.len() == stems(listed(listing@)).len(),
{
    let mut names: Vec<String> = Vec::new();
    let mut i: usize = 0;
    let ghost all = listed(listing@);
    assert(all.take(0) =~= Seq::<Option<Seq<char>>>::empty());
    assert(texts(names@) =~= Seq::<Seq<char>>::empty());
    while i < listing.len()
        invariant
            i <= listing@.len(),
            all == listed(listing@),
            texts(names@) == stems(all.take(i as int)),
        decreases listing@.len() - i,
    {
        proof {
            assert(all.take(i + 1).drop_last() =~= all.take(i as int));
            assert(all.take(i + 1).last() == all[i as int]);
        }
        if let Some(n) = &listing[i] {
            if let Some(stem) = text::strip_suffix(n.as_str(), EXT) {
                let ghost old_names = names@;
                names.push(stem.to_owned());
                proof {
                    let k = n@.len() - EXT@.len();
                    assert(EXT@ =~= n@.subrange(k, n@.len() as int));
                    assert(n@.take(k) =~= stem@);
                    assert(texts(names@) =~= texts(old_names).push(stem@));
                }
            }
        }
        i = i + 1;
    }
    assert(all.take(i as int) =~= all);
    order::sort(names)
}

/// The keyset names among the entries of a directory, each with whether it is a
/// directory: those of directories, hidden ones left out.
pub open spec fn shown(listing: Seq<(Option<Seq<char>>, bool)>) -> Seq<Seq<char>>
    decreases listing.len(),
{
    if listing.len() == 0 {
        Seq::empty()
    } else {
        let front = shown(listing.drop_last());
        match listing.last() {
            (Some(n), true) => if n.len() > 0 && n[0] == '.' {
                front
            } else {
                front.push(n)
            },
            _ => front,
        }
    }
}

/// What a directory lists, with whether each entry is a directory.
pub open spec fn listed_dirs(listing: Seq<(Option<String>, bool)>) -> Seq<
    (Option<Seq<char>>, bool),
> {
    listing.map_values(
        |e: (Option<String>, bool)|
            (
                match e.0 {
                    Some(t) => Some(t@),
                    None => None,
                },
                e.1,
            ),
    )
}

/// Names of the keysets in a scope's directory, sorted.
pub fn set_names(listing: &Vec<(Option<String>, bool)>) -> (r: Vec<String>)
    ensures
        sorted_from(texts(r@), shown(listed_dirs(listing@))),
        r@.len() == shown(listed_dirs(listing@)).len(),
{
    let mut names: Vec<String> = Vec::new();
    let mut i: usize = 0;
    let ghost all = listed_dirs(listing@);
    assert(all.take(0) =~= Seq::<(Option<Seq<char>>, bool)>::empty());
    assert(texts(names@) =~= Seq::<Seq<char>>::empty());
    while i < listing.len()
        invariant
            i <= listing@.len(),
            all == listed_dirs(listing@),
            texts(names@) == shown(all.take(i as int)),
        decreases listing@.len() - i,
    {
        proof {
            assert(all.take(i + 1).drop_last() =~= all.take(i as int));
            assert(all.take(i + 1).last() == all[i as int]);
        }
        if listing[i].1 {
            if let Some(n) = &listing[i].0 {
                proof {
                    reveal_strlit(".");
                    if n@.len() > 0 && n@[0] == '.' {
                        assert("."@ =~= n@.subrange(0, 1));
                    }
                    if "."@.is_prefix_of(n@) {
                        assert("."@[0] == n@.subrange(0, 1)[0]);
                    }
                }
                if !text::starts_with(n.as_str(), ".") {
                    let ghost old_names = names@;
                    names.push(n.as_str().to_owned());
                    assert(texts(names@) =~= texts(old_names).push(n@));
                }
            }
        }
        i = i + 1;
    }
    assert(all.take(i as int) =~= all);
    order::sort(names)
}

/// A keyset's name is made character by character: each is a letter, a digit, `-`, `_` or
/// `.`, and the first is no `.`.
pub proof fn law_set_name(s: Seq<char>, c: char)
    ensures
        ({
            let letter = 48 <= c as int <= 57 || 65 <= c as int <= 90 || 97 <= c as int <= 122;
            &&& !is_set_name(Seq::<char>::empty())
            &&& is_set_name(seq![c]) <==> letter || c == '-' || c == '_'
            &&& s.len() > 0 ==> (is_set_name(s.push(c)) <==> is_set_name(s) && (letter || c == '-'
                || c == '_' || c == '.'))
        }),
{
    let t = s.push(c);
    assert(seq![c][0] == c);
    if s.len() > 0 {
        assert(t[0] == s[0]);
        if is_set_name(t) {
            assert forall|i: int| 0 <= i < s.len() implies text::is_plain(#[trigger] s[i]) by {
                assert(t[i] == s[i]);
            }
            assert(text::is_plain(t[s.len() as int]));
        }
        if is_set_name(s) && text::is_plain(c) {
            assert forall|i: int| 0 <= i < t.len() implies text::is_plain(#[trigger] t[i]) by {
                if i < s.len() {
                    assert(t[i] == s[i]);
                }
            }
        }
    }
}

/// What a directory lists is taken as it is, entry by entry.
pub proof fn law_listed(listing: Seq<Option<String>>, dirs: Seq<(Option<String>, bool)>, i: int)
    ensures
        listed(listing).len() == listing.len(),
        listed_dirs(dirs).len() == dirs.len(),
        0 <= i < listing.len() ==> match listing[i] {
            Some(t) => listed(listing)[i] == Some(t@),
            None => listed(listing)[i] is None,
        },
        0 <= i < dirs.len() ==> listed_dirs(dirs)[i].1 == dirs[i].1 && match dirs[i].0 {
            Some(t) => listed_dirs(dirs)[i].0 == Some(t@),
            None => listed_dirs(dirs)[i].0 is None,
        },
{
}

/// One more at the end counts one more.
proof fn lemma_count_push<A>(s: Seq<A>, x: A, y: A)
    ensures
        s.push(x).to_multiset().count(y) == s.to_multiset().count(y) + if x == y {
            1nat
        } else {
            0nat
        },
{
    broadcast use vstd::multiset::group_multiset_axioms;

    s.to_multiset_ensures();
}

/// Each name stands among the names as often as its file among the entries.
proof fn lemma_stems_count(listing: Seq<Option<Seq<char>>>, k: Seq<char>)
    ensures
        stems(listing).to_multiset().count(k) == listing.to_multiset().count(
            Some(k + seq!['.', 'e', 'n', 'c']),
        ),
    decreases listing.len(),
{
    broadcast use vstd::multiset::group_multiset_axioms;

    let ext = seq!['.', 'e', 'n', 'c'];
    let file = Some(k + ext);
    reveal_strlit(".enc");
    assert(EXT@ =~= ext);
    if listing.len() > 0 {
        let less = listing.drop_last();
        lemma_stems_count(less, k);
        assert(listing =~= less.push(listing.last()));
        lemma_count_push(less, listing.last(), file);
        match listing.last() {
            Some(n) => {
                if ext.is_suffix_of(n) {
                    let stem = n.take(n.len() - 4);
                    assert(ext =~= n.subrange(n.len() - 4, n.len() as int));
                    assert(n =~= stem + ext);
                    lemma_count_push(stems(less), stem, k);
                    if n == k + ext {
                        assert(stem =~= k);
                    }
                } else if n == k + ext {
                    assert(ext =~= n.subrange(n.len() - 4, n.len() as int));
                }
            },
            None => {},
        }
    } else {
        stems(listing).to_multiset_ensures();
        listing.to_multiset_ensures();
        assert(!stems(listing).contains(k));
        assert(!listing.contains(file));
    }
}

/// The key names of a directory are exactly the names whose files it lists: a name is
/// among them as often as the listing has an entry with the name and `.enc` behind it,
/// whatever else it lists, and they come in the order of their bytes.
pub proof fn law_key_names(listing: Seq<Option<Seq<char>>>, list: Seq<Seq<char>>, k: Seq<char>)
    requires
        sorted_from(list, stems(listing)),
    ensures
        list.to_multiset().count(k) == listing.to_multiset().count(
            Some(k + seq!['.', 'e', 'n', 'c']),
        ),
        list.contains(k) <==> listing.contains(Some(k + seq!['.', 'e', 'n', 'c'])),
        forall|i: int, j: int|
            0 <= i < j < list.len() ==> order::text_le(#[trigger] list[i], #[trigger] list[j]),
{
    lemma_stems_count(listing, k);
    list.to_multiset_ensures();
    listing.to_multiset_ensures();
    assert forall|i: int, j: int| 0 <= i < j < list.len() implies order::text_le(
        #[trigger] list[i],
        #[trigger] list[j],
    ) by {
        assert(<String as order::Ranked>::le(list[i], list[j]));
    }
}

/// Each name stands among the keysets as often as its directory among the entries, unless
/// it is hidden.
proof fn lemma_shown_count(listing: Seq<(Option<Seq<char>>, bool)>, k: Seq<char>)
    ensures
        shown(listing).to_multiset().count(k) == if k.len() > 0 && k[0] == '.' {
            0
        } else {
            listing.to_multiset().count((Some(k), true))
        },
    decreases listing.len(),
{
    broadcast use vstd::multiset::group_multiset_axioms;

    if listing.len() > 0 {
        let less = listing.drop_last();
        lemma_shown_count(less, k);
        assert(listing =~= less.push(listing.last()));
        lemma_count_push(less, listing.last(), (Some(k), true));
        if let (Some(n), true) = listing.last() {
            lemma_count_push(shown(less), n, k);
        }
    } else {
        shown(listing).to_multiset_ensures();
        listing.to_multiset_ensures();
        assert(!shown(listing).contains(k));
        assert(!listing.contains((Some(k), true)));
    }
}

/// The keysets of a scope are exactly the directories that are listed and not hidden,
/// each as often as it is listed, in the order of their bytes.
pub proof fn law_set_names(
    listing: Seq<(Option<Seq<char>>, bool)>,
    list: Seq<Seq<char>>,
    k: Seq<char>,
)
    requires
        sorted_from(list, shown(listing)),
    ensures
        k.len() > 0 && k[0] == '.' ==> !list.contains(k),
        k.len() == 0 || k[0] != '.' ==> list.to_multiset().count(k)
            == listing.to_multiset().count((Some(k), true)),
        k.len() == 0 || k[0] != '.' ==> (list.contains(k) <==> listing.contains((Some(k), true))),
        forall|i: int, j: int|
            0 <= i < j < list.len() ==> order::text_le(#[trigger] list[i], #[trigger] list[j]),
{
    lemma_shown_count(listing, k);
    list.to_multiset_ensures();
    listing.to_multiset_ensures();
    assert forall|i: int, j: int| 0 <= i < j < list.len() implies order::text_le(
        #[trigger] list[i],
        #[trigger] list[j],
    ) by {
        assert(<String as order::Ranked>::le(list[i], list[j]));
    }
}

/// A description is what all begin with, the keyset's name, a colon and the generation in
/// hexadecimal.
pub proof fn law_description(set: Seq<char>, generation: Seq<u8>)
    ensures
        ({
            let head = "tempkeys:key:"@ + set;
            let d = key_description(set, generation);
            &&& d.take(head.len() as int) == head
            &&& d[head.len() as int] == ':'
            &&& d.skip(head.len() as int + 1) == vault::hex_text(generation)
            &&& set_prefix(set) == head.push(':')
        }),
        SESSION_MARKER@ == "tempkeys:session"@,
{
    let head = "tempkeys:key:"@ + set;
    let d = key_description(set, generation);
    reveal_strlit(":");
    assert(d.take(head.len() as int) =~= head);
    assert(d.skip(head.len() as int + 1) =~= vault::hex_text(generation));
    assert(set_prefix(set) =~= head.push(':'));
}

/// The texts of a list are taken as they are.
pub proof fn law_texts(list: Seq<String>, i: int)
    ensures
        texts(list).len() == list.len(),
        0 <= i < list.len() ==> texts(list)[i] == list[i]@,
{
}

} // verus!
