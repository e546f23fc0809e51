//! Running a command with keys as environment variables.
use vstd::prelude::*;
use vstd::string::*;
use crate::names;
use crate::order;
use crate::parse;
use crate::secret::Secret;
use crate::store;
use crate::text;

verus! {

/// A variable and the key that it takes its value from.
pub type Mapping = (Seq<char>, Seq<char>);

/// The mappings of a list.
pub open spec fn mappings_of(list: Seq<(String, String)>) -> Seq<Mapping> {
    order::views(list)
}

/// The mapping that `VAR=KEY`, or `VAR` for `VAR=VAR`, stands for.
pub open spec fn mapping(spec: Seq<char>) -> Result<Mapping, Seq<char>> {
    let (var, key) = match text::cut(spec, '=') {
        Some(parts) => parts,
        None => (spec, spec),
    };
    if !parse::is_name(var) {
        Err(bad_mapping(spec, "variable"@, var))
    } else if !parse::is_name(key) {
        Err(bad_mapping(spec, "key"@, key))
    } else {
        Ok((var, key))
    }
}

/// The message for a mapping with a name that is none.
pub open spec fn bad_mapping(spec: Seq<char>, what: Seq<char>, name: Seq<char>) -> Seq<char> {
    "bad -e "@ + text::debug_text(spec) + ": invalid "@ + what + " name "@ + text::debug_text(name)
}

/// The message for a mapping with a name that is none.
fn refuse_mapping(spec: &str, what: &str, name: &str) -> (r: String)
    ensures
        r@ == bad_mapping(spec@, what@, name@),
{
    let mut r = text::join5("bad -e ", text::quoted(spec).as_str(), ": invalid ", what, " name ");
    r.append(text::quoted(name).as_str());
    r
}

/// `VAR=KEY` (or `VAR`, meaning `VAR=VAR`) into (variable, key).
pub fn parse_mapping(spec: &str) -> (r: Result<(String, String), String>)
    ensures
        match r {
            Ok(m) => mapping(spec@) == Ok::<Mapping, Seq<char>>((m.0@, m.1@)),
            Err(e) => mapping(spec@) == Err::<Mapping, Seq<char>>(e@),
        },
{
    let (var, key) = match text::split_once(spec, '=') {
        Some(parts) => parts,
        None => (spec, spec),
    };
    if !parse::valid_name(var) {
        return Err(refuse_mapping(spec, "variable", var));
    }
    if !parse::valid_name(key) {
        return Err(refuse_mapping(spec, "key", key));
    }
    Ok((var.to_owned(), key.to_owned()))
}

/// The mappings that `-e` options ask for, or what is wrong with the first that is
/// wrong.
pub open spec fn parsed(specs: Seq<Seq<char>>) -> Result<Seq<Mapping>, Seq<char>>
    decreases specs.len(),
{
    if specs.len() == 0 {
        Ok(Seq::empty())
    } else {
        match parsed(specs.drop_last()) {
            Err(e) => Err(e),
            Ok(front) => match mapping(specs.last()) {
                Err(e) => Err(e),
                Ok(m) => Ok(front.push(m)),
            },
        }
    }
}

/// Each key under its own name.
pub open spec fn own_names(list: Seq<Seq<char>>) -> Seq<Mapping> {
    list.map_values(|n: Seq<char>| (n, n))
}

/// The mappings that are asked for: those of the `-e` options if there are any, else
/// every key of the keyset under its own name. `keys` is `None` where the keyset's
/// directory cannot be listed.
pub open spec fn wanted(
    set: Seq<char>,
    specs: Seq<Seq<char>>,
    keys: Option<Seq<Seq<char>>>,
) -> Result<Seq<Mapping>, Seq<char>> {
    if specs.len() > 0 {
        parsed(specs)
    } else {
        match keys {
            Some(list) => Ok(own_names(list)),
            None => Err(store::no_keyset(set)),
        }
    }
}

/// Whether a list has the given mappings, each as often, in the order of variables
/// and then of keys.
pub open spec fn sorted_mappings(list: Seq<Mapping>, all: Seq<Mapping>) -> bool {
    &&& order::ordered::<(String, String)>(list)
    &&& list.to_multiset() == all.to_multiset()
}

/// The texts of the keys that could be listed.
pub open spec fn key_texts(keys: Option<Vec<String>>) -> Option<Seq<Seq<char>>> {
    match keys {
        Some(list) => Some(names::texts(list@)),
        None => None,
    }
}

/// The mappings that are asked for.
fn ask_for(set: &str, env: &Vec<String>, keys: Option<Vec<String>>) -> (r: Result<
    Vec<(String, String)>,
    String,
>)
    ensures
        match r {
            Ok(list) => wanted(set@, names::texts(env@), key_texts(keys)) == Ok::<
                Seq<Mapping>,
                Seq<char>,
            >(mappings_of(list@)),
            Err(e) => wanted(set@, names::texts(env@), key_texts(keys)) == Err::<
                Seq<Mapping>,
                Seq<char>,
            >(e@),
        },
{
    let mut list: Vec<(String, String)> = Vec::new();
    assert(mappings_of(list@) =~= Seq::<Mapping>::empty());
    let mut i: usize = 0;
    if env.len() == 0 {
        let keys = match keys {
            Some(keys) => keys,
            None => {
                return Err(text::join2("no keyset ", text::quoted(set).as_str()));
            },
        };
        let ghost all = own_names(names::texts(keys@));
        assert(all.take(0) =~= Seq::<Mapping>::empty());
        while i < keys.len()
            invariant
                i <= keys@.len(),
                all == own_names(names::texts(keys@)),
                mappings_of(list@) == all.take(i as int),
            decreases keys@.len() - i,
        {
            let n = keys[i].as_str();
            let ghost old_list = list@;
            list.push((n.to_owned(), n.to_owned()));
            proof {
                assert(names::texts(keys@)[i as int] == n@);
                assert(all.take(i + 1) =~= all.take(i as int).push(all[i as int]));
                assert(mappings_of(list@) =~= mappings_of(old_list).push((n@, n@)));
            }
            i = i + 1;
        }
        assert(all.take(i as int) =~= all);
        return Ok(list);
    }
    let ghost specs = names::texts(env@);
    assert(specs.take(0) =~= Seq::<Seq<char>>::empty());
    while i < env.len()
        invariant
            i <= env@.len(),
            env@.len() > 0,
            specs == names::texts(env@),
            parsed(specs.take(i as int)) == Ok::<Seq<Mapping>, Seq<char>>(mappings_of(list@)),
        decreases env@.len() - i,
    {
        proof {
            assert(specs.take(i + 1).drop_last() =~= specs.take(i as int));
            assert(specs.take(i + 1).last() == env@[i as int]@);
        }
        match parse_mapping(env[i].as_str()) {
            Ok(m) => {
                let ghost old_list = list@;
                let ghost pushed = (m.0@, m.1@);
                list.push(m);
                assert(mappings_of(list@) =~= mappings_of(old_list).push(pushed));
            },
            Err(e) => {
                proof {
                    lemma_parsed_fails(specs, i + 1);
                }
                return Err(e);
            },
        }
        i = i + 1;
    }
    assert(specs.take(i as int) =~= specs);
    Ok(list)
}

/// What is wrong with the first options is wrong with all of them.
proof fn lemma_parsed_fails(specs: Seq<Seq<char>>, k: int)
    requires
        0 <= k <= specs.len(),
        parsed(specs.take(k)) is Err,
    ensures
        parsed(specs) == parsed(specs.take(k)),
    decreases specs.len() - k,
{
    if k < specs.len() {
        assert(specs.take(k + 1).drop_last() =~= specs.take(k));
        lemma_parsed_fails(specs, k + 1);
    } else {
        assert(specs.take(k) =~= specs);
    }
}

/// Whether the mappings at `k` and behind it are the first two for one variable.
pub open spec fn first_repeat(list: Seq<Mapping>, k: int) -> bool {
    &&& 0 <= k < list.len() - 1
    &&& list[k].0 == list[k + 1].0
    &&& forall|j: int| 0 <= j < k ==> (#[trigger] list[j]).0 != list[j + 1].0
}

/// The message for a variable that is mapped more than once.
pub open spec fn repeated(var: Seq<char>) -> Seq<char> {
    "variable "@ + var + " is mapped more than once"@
}

/// The variables to populate and the keys that they take their values from, sorted,
/// each variable once.
pub fn mappings(set: &str, env: &Vec<String>, keys: Option<Vec<String>>) -> (r: Result<
    Vec<(String, String)>,
    String,
>)
    ensures
        match wanted(set@, names::texts(env@), key_texts(keys)) {
            Err(e) => r matches Err(m) && m@ == e,
            Ok(all) => exists|list: Seq<Mapping>|
                #![trigger sorted_mappings(list, all)]
                sorted_mappings(list, all) && match r {
                    Ok(l) => mappings_of(l@) == list && forall|k: int| !first_repeat(list, k),
                    Err(m) => exists|k: int|
                        #[trigger] first_repeat(list, k) && m@ == repeated(list[k].0),
                },
        },
{
    let asked = match ask_for(set, env, keys) {
        Ok(list) => list,
        Err(e) => {
            return Err(e);
        },
    };
    let list = order::sort(asked);
    let ghost all = mappings_of(list@);
    proof {
        assert(sorted_mappings(
            all,
            wanted(set@, names::texts(env@), key_texts(keys))->Ok_0,
        ));
    }
    let mut i: usize = 1;
    while i < list.len()
        invariant
            1 <= i,
            i <= list@.len() || list@.len() == 0 && i == 1,
            all == mappings_of(list@),
            wanted(set@, names::texts(env@), key_texts(keys)) is Ok,
            sorted_mappings(all, wanted(set@, names::texts(env@), key_texts(keys))->Ok_0),
            forall|j: int| 0 <= j < i - 1 ==> (#[trigger] all[j]).0 != all[j + 1].0,
        decreases list@.len() - i,
    {
        assert(all[i as int - 1].0 == list@[i as int - 1].0@);
        assert(all[i as int].0 == list@[i as int].0@);
        if text::same(list[i - 1].0.as_str(), list[i].0.as_str()) {
            assert(first_repeat(all, i - 1));
            return Err(
                text::join3("variable ", list[i - 1].0.as_str(), " is mapped more than once"),
            );
        }
        i = i + 1;
    }
    Ok(list)
}

/// The message for a key whose value cannot be that of an environment variable.
pub open spec fn nul_message(key: Seq<char>) -> Seq<char> {
    "key "@ + key + " contains a NUL byte and can't be an environment variable (use `get`)"@
}

/// Refuses a value that cannot be that of an environment variable.
fn check_value(key: &str, value: &Secret) -> (r: Result<(), String>)
    ensures
        match r {
            Ok(_) => !value@.contains(0),
            Err(e) => value@.contains(0) && e@ == nul_message(key@),
        },
{
    let mut i: usize = 0;
    while i < value.0.len()
        invariant
            i <= value@.len(),
            forall|k: int| 0 <= k < i ==> value@[k] != 0,
        decreases value@.len() - i,
    {
        if value.0[i] == 0 {
            assert(value@.contains(value@[i as int]));
            return Err(
                text::join3(
                    "key ",
                    key,
                    " contains a NUL byte and can't be an environment variable (use `get`)",
                ),
            );
        }
        i = i + 1;
    }
    Ok(())
}

/// The variables and their values, or what went wrong first: a key that could not be
/// read, or one whose value cannot be that of an environment variable.
pub open spec fn populated(
    list: Seq<Mapping>,
    values: Seq<Result<Secret, String>>,
    i: int,
) -> Result<Seq<(Seq<char>, Seq<u8>)>, Seq<char>>
    decreases list.len() - i,
{
    if i >= list.len() {
        Ok(Seq::empty())
    } else {
        match values[i] {
            Err(e) => Err(e@),
            Ok(v) => if v@.contains(0) {
                Err(nul_message(list[i].1))
            } else {
                match populated(list, values, i + 1) {
                    Ok(rest) => Ok(seq![(list[i].0, v@)] + rest),
                    Err(e) => Err(e),
                }
            },
        }
    }
}

/// The variables with their values.
pub open spec fn environment_of(list: Seq<(String, Secret)>) -> Seq<(Seq<char>, Seq<u8>)> {
    parse::entries(list)
}

/// Whether there is a value for each mapping, or a reason that there is none for the
/// first that lacks it.
pub open spec fn values_cover(values: Seq<Result<Secret, String>>, n: nat) -> bool {
    values.len() <= n && (values.len() < n ==> values.len() > 0 && values.last() is Err)
}

/// The variables with their values, for a command that is to be run. Where a key is
/// missing, or its value cannot be that of an environment variable, there are none,
/// so that nothing is run.
pub fn populate(list: &Vec<(String, String)>, values: Vec<Result<Secret, String>>) -> (r: Result<
    Vec<(String, Secret)>,
    String,
>)
    requires
        values_cover(values@, list@.len()),
    ensures
        match r {
            Ok(env) => populated(mappings_of(list@), values@, 0) == Ok::<
                Seq<(Seq<char>, Seq<u8>)>,
                Seq<char>,
            >(environment_of(env@)),
            Err(e) => populated(mappings_of(list@), values@, 0) == Err::<
                Seq<(Seq<char>, Seq<u8>)>,
                Seq<char>,
            >(e@),
        },
{
    let ghost maps = mappings_of(list@);
    let ghost given = values@;
    let mut rest = values;
    let mut env: Vec<(String, Secret)> = Vec::new();
    let mut i: usize = 0;
    proof {
        assert(environment_of(env@) =~= Seq::<(Seq<char>, Seq<u8>)>::empty());
        assert(given.skip(0) =~= given);
        match populated(maps, given, 0) {
            Ok(l) => assert(environment_of(env@) + l =~= l),
            Err(_) => {},
        }
    }
    while i < list.len()
        invariant
            i <= list@.len(),
            i <= given.len(),
            maps == mappings_of(list@),
            given == values@,
            values_cover(given, list@.len()),
            rest@ == given.skip(i as int),
            forall|k: int| 0 <= k < i ==> (#[trigger] given[k]) is Ok,
            populated(maps, given, 0) == match populated(maps, given, i as int) {
                Ok(l) => Ok::<Seq<(Seq<char>, Seq<u8>)>, Seq<char>>(environment_of(env@) + l),
                Err(e) => Err(e),
            },
        decreases list@.len() - i,
    {
        proof {
            if i == given.len() {
                assert(given[i as int - 1] is Ok);
            }
            assert(rest@[0] == given[i as int]);
            assert(given.skip(i as int).drop_first() =~= given.skip(i + 1));
        }
        let ghost before = rest@;
        let first = rest.remove(0);
        assert(rest@ =~= before.drop_first());
        match first {
            Err(e) => {
                return Err(e);
            },
            Ok(value) => {
                assert(maps[i as int] == (list@[i as int].0@, list@[i as int].1@));
                match check_value(list[i].1.as_str(), &value) {
                    Ok(_) => {},
                    Err(e) => {
                        return Err(e);
                    },
                }
                let ghost old_env = env@;
                let ghost pair = (list@[i as int].0@, value@);
                env.push((list[i].0.as_str().to_owned(), value));
                proof {
                    assert(environment_of(env@) =~= environment_of(old_env).push(pair));
                    match populated(maps, given, i + 1) {
                        Ok(l) => assert(environment_of(env@) + l =~= environment_of(old_env) + (
                        seq![pair] + l)),
                        Err(_) => {},
                    }
                }
            },
        }
        i = i + 1;
    }
    assert(environment_of(env@) + Seq::<(Seq<char>, Seq<u8>)>::empty() =~= environment_of(env@));
    Ok(env)
}

/// How a mapping is told: the variable alone where it has the key's name.
pub open spec fn told(m: Mapping) -> Seq<char> {
    if m.0 == m.1 {
        m.0
    } else {
        m.0 + "="@ + m.1
    }
}

/// How mappings are told, one after the other.
pub open spec fn told_all(list: Seq<Mapping>) -> Seq<char>
    decreases list.len(),
{
    if list.len() == 0 {
        Seq::empty()
    } else if list.len() == 1 {
        told(list[0])
    } else {
        told_all(list.drop_last()) + " "@ + told(list.last())
    }
}

/// What is told of the variables that are populated: their names and those of their
/// keys, never values. With more than one scope in play it says which the keyset is
/// from.
pub fn populating(
    list: &Vec<(String, String)>,
    scopes: usize,
    label: &str,
    set: &str,
) -> (r: String)
    ensures
        r@ == "tempkeys: populating "@ + told_all(mappings_of(list@)) + if scopes > 1 {
            " (from "@ + label@ + " keyset "@ + text::debug_text(set@) + ")"@
        } else {
            Seq::empty()
        },
{
    let ghost all = mappings_of(list@);
    let mut shown = String::new();
    let mut i: usize = 0;
    assert(all.take(0) =~= Seq::<Mapping>::empty());
    assert(shown@ =~= Seq::<char>::empty());
    while i < list.len()
        invariant
            i <= list@.len(),
            all == mappings_of(list@),
            shown@ == told_all(all.take(i as int)),
        decreases list@.len() - i,
    {
        let ghost before = all.take(i as int);
        proof {
            assert(all.take(i + 1).drop_last() =~= before);
            assert(all.take(i + 1).last() == (list@[i as int].0@, list@[i as int].1@));
        }
        if i > 0 {
            shown.append(" ");
        }
        shown.append(list[i].0.as_str());
        if !text::same(list[i].0.as_str(), list[i].1.as_str()) {
            shown.append("=");
            shown.append(list[i].1.as_str());
        }
        assert(shown@ =~= told_all(all.take(i + 1)));
        i = i + 1;
    }
    assert(all.take(i as int) =~= all);
    let mut r = text::join2("tempkeys: populating ", shown.as_str());
    if scopes > 1 {
        let from = text::join5(" (from ", label, " keyset ", text::quoted(set).as_str(), ")");
        r.append(from.as_str());
    }
    assert(r@ =~= "tempkeys: populating "@ + told_all(all) + if scopes > 1 {
        " (from "@ + label@ + " keyset "@ + text::debug_text(set@) + ")"@
    } else {
        Seq::empty()
    });
    r
}

/// Whether a variable got the value of its key.
pub open spec fn serves(
    value: Result<Secret, String>,
    m: Mapping,
    variable: (Seq<char>, Seq<u8>),
) -> bool {
    value matches Ok(v) && !v@.contains(0) && variable == (m.0, v@)
}

/// A missing key fails before the command starts: there are variables for it only
/// where every mapping has a value, and then each variable has that of its key.
pub proof fn law_all_or_nothing(list: Seq<Mapping>, values: Seq<Result<Secret, String>>, i: int)
    requires
        0 <= i <= list.len(),
    ensures
        populated(list, values, i) matches Ok(env) ==> {
            &&& env.len() == list.len() - i
            &&& forall|k: int|
                i <= k < list.len() ==> serves(values[k], #[trigger] list[k], env[k - i])
        },
    decreases list.len() - i,
{
    if i < list.len() {
        law_all_or_nothing(list, values, i + 1);
        if let Ok(env) = populated(list, values, i) {
            let rest = populated(list, values, i + 1)->Ok_0;
            assert forall|k: int| i <= k < list.len() implies serves(
                values[k],
                #[trigger] list[k],
                env[k - i],
            ) by {
                if k > i {
                    assert(env[k - i] == rest[k - (i + 1)]);
                }
            }
        }
    }
}

/// In a sorted list without two neighbours for one variable, no variable comes twice.
pub proof fn law_variables_once(list: Seq<Mapping>)
    requires
        order::ordered::<(String, String)>(list),
        forall|k: int| !first_repeat(list, k),
    ensures
        forall|i: int, j: int|
            0 <= i < j < list.len() ==> (#[trigger] list[i]).0 != (#[trigger] list[j]).0,
{
    lemma_no_repeat(list, list.len() as int - 1);
    assert forall|i: int, j: int| 0 <= i < j < list.len() implies (#[trigger] list[i]).0 != (
    #[trigger] list[j]).0 by {
        assert(list[i].0 != list[i + 1].0);
        order::lemma_pairs_ordered(list, i, i + 1);
        if list[i].0 == list[j].0 {
            assert(j > i + 1);
            order::lemma_pairs_ordered(list, i + 1, j);
            order::lemma_text_le(list[i].0, list[i + 1].0);
        }
    }
}

/// Where no pair of neighbours is the first for one variable, none is.
proof fn lemma_no_repeat(list: Seq<Mapping>, n: int)
    requires
        n <= list.len() - 1,
        forall|k: int| !first_repeat(list, k),
    ensures
        forall|j: int| 0 <= j < n ==> (#[trigger] list[j]).0 != list[j + 1].0,
    decreases n,
{
    if n > 0 {
        lemma_no_repeat(list, n - 1);
        assert(!first_repeat(list, n - 1));
    }
}

/// The first part of an option is the variable that is populated and the second the key
/// that is read, and a variable alone takes the key of its own name.
pub proof fn law_mapping(var: Seq<char>, key: Seq<char>)
    requires
        parse::is_name(var),
        parse::is_name(key),
    ensures
        mapping(var + seq!['='] + key) == Ok::<Mapping, Seq<char>>((var, key)),
        mapping(var) == Ok::<Mapping, Seq<char>>((var, var)),
{
    assert(!var.contains('=')) by {
        if var.contains('=') {
            let i = choose|i: int| 0 <= i < var.len() && var[i] == '=';
            assert(text::is_alnum(var[i]) || var[i] == '_');
        }
    }
    text::law_cut(var, '=', key);
}

/// An option is refused for the first of its names that is none, whatever it is.
pub proof fn law_mapping_refused(var: Seq<char>, key: Seq<char>)
    requires
        !var.contains('='),
    ensures
        !parse::is_name(var) ==> mapping(var + seq!['='] + key) == Err::<Mapping, Seq<char>>(
            "bad -e "@ + text::debug_text(var + seq!['='] + key) + ": invalid variable name "@
                + text::debug_text(var),
        ),
        parse::is_name(var) && !parse::is_name(key) ==> mapping(var + seq!['='] + key) == Err::<
            Mapping,
            Seq<char>,
        >(
            "bad -e "@ + text::debug_text(var + seq!['='] + key) + ": invalid key name "@
                + text::debug_text(key),
        ),
        !parse::is_name(var) ==> mapping(var) is Err,
{
    text::law_cut(var, '=', key);
    let s = text::debug_text(var + seq!['='] + key);
    reveal_strlit("variable");
    reveal_strlit("key");
    reveal_strlit(": invalid ");
    reveal_strlit(" name ");
    reveal_strlit(": invalid variable name ");
    reveal_strlit(": invalid key name ");
    assert(": invalid "@ + "variable"@ + " name "@ =~= ": invalid variable name "@);
    assert(": invalid "@ + "key"@ + " name "@ =~= ": invalid key name "@);
    assert("bad -e "@ + s + ": invalid "@ + "variable"@ + " name "@ + text::debug_text(var)
        =~= "bad -e "@ + s + (": invalid "@ + "variable"@ + " name "@) + text::debug_text(var));
    assert("bad -e "@ + s + ": invalid "@ + "key"@ + " name "@ + text::debug_text(key)
        =~= "bad -e "@ + s + (": invalid "@ + "key"@ + " name "@) + text::debug_text(key));
}

/// Each option gives its own mapping, in order, or all are refused for one that is wrong.
pub proof fn law_each_option(specs: Seq<Seq<char>>)
    ensures
        match parsed(specs) {
            Ok(list) => list.len() == specs.len() && forall|i: int|
                0 <= i < specs.len() ==> mapping(#[trigger] specs[i]) == Ok::<Mapping, Seq<char>>(
                    list[i],
                ),
            Err(e) => exists|i: int|
                0 <= i < specs.len() && mapping(#[trigger] specs[i]) == Err::<Mapping, Seq<char>>(
                    e,
                ) && forall|j: int| 0 <= j < i ==> mapping(#[trigger] specs[j]) is Ok,
        },
    decreases specs.len(),
{
    if specs.len() > 0 {
        let less = specs.drop_last();
        let n = less.len() as int;
        law_each_option(less);
        assert(specs[n] == specs.last());
        match parsed(less) {
            Ok(front) => {
                assert forall|j: int| 0 <= j < n implies mapping(#[trigger] specs[j]) == Ok::<
                    Mapping,
                    Seq<char>,
                >(front[j]) by {
                    assert(less[j] == specs[j]);
                }
                if let Err(e) = mapping(specs.last()) {
                    assert(mapping(specs[n]) == Err::<Mapping, Seq<char>>(e));
                }
            },
            Err(e) => {
                let i = choose|i: int|
                    0 <= i < less.len() && mapping(#[trigger] less[i]) == Err::<
                        Mapping,
                        Seq<char>,
                    >(e) && forall|j: int| 0 <= j < i ==> mapping(#[trigger] less[j]) is Ok;
                assert(less[i] == specs[i]);
                assert forall|j: int| 0 <= j < i implies mapping(#[trigger] specs[j]) is Ok by {
                    assert(less[j] == specs[j]);
                }
            },
        }
    }
}

/// Without options every key of the keyset is mapped to the variable of its own name, each
/// as it is listed; with options nothing but what they name is.
pub proof fn law_wanted(
    set: Seq<char>,
    specs: Seq<Seq<char>>,
    keys: Seq<Seq<char>>,
    listed: Option<Seq<Seq<char>>>,
)
    ensures
        wanted(set, Seq::empty(), Some(keys)) matches Ok(all) && all.len() == keys.len()
            && forall|i: int| 0 <= i < keys.len() ==> #[trigger] all[i] == (keys[i], keys[i]),
        wanted(set, Seq::empty(), None) is Err,
        specs.len() > 0 ==> wanted(set, specs, listed) == parsed(specs),
{
}

/// Sorting the mappings loses none, adds none and puts them in the order of variables and
/// then of keys.
pub proof fn law_sorted_mappings(list: Seq<Mapping>, all: Seq<Mapping>, m: Mapping)
    requires
        sorted_mappings(list, all),
    ensures
        list.to_multiset().count(m) == all.to_multiset().count(m),
        list.contains(m) <==> all.contains(m),
        list.len() == all.len(),
        forall|i: int, j: int|
            0 <= i < j < list.len() ==> order::pair_le(#[trigger] list[i], #[trigger] list[j]),
{
    list.to_multiset_ensures();
    all.to_multiset_ensures();
    assert(list.contains(m) <==> list.to_multiset().count(m) > 0);
    assert(all.contains(m) <==> all.to_multiset().count(m) > 0);
    assert forall|i: int, j: int| 0 <= i < j < list.len() implies order::pair_le(
        #[trigger] list[i],
        #[trigger] list[j],
    ) by {
        order::lemma_pairs_ordered(list, i, j);
        assert(<(String, String) as order::Ranked>::le(list[i], list[j]));
    }
}

/// A variable is told to be mapped twice exactly where two neighbours have it, and it is
/// the first such pair that is told.
pub proof fn law_first_repeat(list: Seq<Mapping>, k: int)
    ensures
        first_repeat(list, k) <==> 0 <= k && k + 1 < list.len() && list[k].0 == list[k + 1].0 && (
        forall|j: int| 0 <= j < k ==> (#[trigger] list[j]).0 != list[j + 1].0),
{
}

/// The command gets its variables where every key could be read and no value holds a NUL
/// byte: then each variable has the value of its key, and there are no others.
pub proof fn law_populated(list: Seq<Mapping>, values: Seq<Result<Secret, String>>, i: int)
    requires
        0 <= i <= list.len(),
        forall|k: int|
            i <= k < list.len() ==> ((#[trigger] values[k]) matches Ok(v) && !v@.contains(0)),
    ensures
        populated(list, values, i) matches Ok(env) && env.len() == list.len() - i && forall|k: int|
            i <= k < list.len() ==> #[trigger] env[k - i] == (list[k].0, values[k]->Ok_0@),
    decreases list.len() - i,
{
    if i < list.len() {
        law_populated(list, values, i + 1);
        assert(values[i] is Ok);
        let rest = populated(list, values, i + 1)->Ok_0;
        let env = populated(list, values, i)->Ok_0;
        assert forall|k: int| i <= k < list.len() implies #[trigger] env[k - i] == (
            list[k].0,
            values[k]->Ok_0@,
        ) by {
            if k > i {
                assert(env[k - i] == rest[k - (i + 1)]);
            }
        }
    }
}

/// Nothing is run for a key that could not be read, nor for a value that cannot be a
/// variable's, and what is told is what went wrong first.
pub proof fn law_not_populated(
    list: Seq<Mapping>,
    values: Seq<Result<Secret, String>>,
    i: int,
    n: int,
)
    requires
        0 <= i <= n < list.len(),
        forall|k: int|
            i <= k < n ==> ((#[trigger] values[k]) matches Ok(v) && !v@.contains(0)),
    ensures
        values[n] matches Err(e) ==> populated(list, values, i) == Err::<
            Seq<(Seq<char>, Seq<u8>)>,
            Seq<char>,
        >(e@),
        values[n] matches Ok(v) ==> v@.contains(0) ==> populated(list, values, i) == Err::<
            Seq<(Seq<char>, Seq<u8>)>,
            Seq<char>,
        >(
            "key "@ + list[n].1
                + " contains a NUL byte and can't be an environment variable (use `get`)"@,
        ),
    decreases n - i,
{
    if i < n {
        assert(values[i] is Ok);
        law_not_populated(list, values, i + 1, n);
    }
}

/// Each mapping is told as its option would be written, a variable of the key's name
/// alone, with one space between two.
pub proof fn law_told(list: Seq<Mapping>, m: Mapping)
    ensures
        m.0 == m.1 ==> told(m) == m.0,
        m.0 != m.1 ==> told(m) == m.0 + seq!['='] + m.1,
        told_all(Seq::empty()).len() == 0,
        told_all(seq![m]) == told(m),
        list.len() > 0 ==> told_all(list.push(m)) == told_all(list) + seq![' '] + told(m),
{
    reveal_strlit("=");
    reveal_strlit(" ");
    assert("="@ =~= seq!['='] && " "@ =~= seq![' ']);
    assert(list.push(m).drop_last() =~= list);
}

/// The texts of mappings, of variables and of listed keys are taken as they are.
pub proof fn law_run_views(
    list: Seq<(String, String)>,
    variables: Seq<(String, Secret)>,
    keys: Vec<String>,
    i: int,
)
    ensures
        mappings_of(list).len() == list.len(),
        0 <= i < list.len() ==> mappings_of(list)[i] == (list[i].0@, list[i].1@),
        environment_of(variables).len() == variables.len(),
        0 <= i < variables.len() ==> environment_of(variables)[i] == (
            variables[i].0@,
            variables[i].1@,
        ),
        key_texts(None) is None,
        key_texts(Some(keys)) matches Some(all) && all.len() == keys@.len() && (0 <= i
            < keys@.len() ==> all[i] == keys@[i]@),
{
}

/// A variable that is mapped more than once is named, and so is a keyset that is not
/// there.
pub proof fn law_run_messages(var: Seq<char>, set: Seq<char>)
    ensures
        repeated(var) == "variable "@ + var + " is mapped more than once"@,
        wanted(set, Seq::empty(), None) == Err::<Seq<Mapping>, Seq<char>>(
            "no keyset "@ + text::debug_text(set),
        ),
{
}

} // verus!
