//! Parsing a keyset from its text: a JSON object of strings, or dotenv-style lines.
use vstd::prelude::*;
use vstd::string::*;
use vstd::utf8::*;
use crate::order;
use crate::secret::Secret;
use crate::text;

verus! {

/// An entry of a keyset: a key name and the bytes of its value.
pub type Entry = (Seq<char>, Seq<u8>);

/// The entries that a list of names and secrets holds.
pub open spec fn entries(list: Seq<(String, Secret)>) -> Seq<Entry> {
    list.map_values(|e: (String, Secret)| (e.0@, e.1@))
}

/// Whether `parsed` and `said` agree: on the entries, or on the error's words.
pub open spec fn gives(
    parsed: Result<Vec<(String, Secret)>, String>,
    said: Result<Seq<Entry>, Seq<char>>,
) -> bool {
    match parsed {
        Ok(list) => said == Ok::<Seq<Entry>, Seq<char>>(entries(list@)),
        Err(e) => said == Err::<Seq<Entry>, Seq<char>>(e@),
    }
}

/// Names that can be those of environment variables: ASCII letters, digits and
/// underscores, of which the first is no digit.
pub open spec fn is_name(s: Seq<char>) -> bool {
    &&& s.len() > 0
    &&& !text::is_digit(s[0])
    &&& forall|i: int| 0 <= i < s.len() ==> text::is_alnum(#[trigger] s[i]) || s[i] == '_'
}

/// Names must be usable as environment variable names.
pub fn valid_name(name: &str) -> (r: bool)
    ensures
        r == is_name(name@),
{
    let mut first: bool = true;
    for c in it: name.chars()
        invariant
            it.seq() == name@,
            first <==> it.index() == 0,
            it.index() > 0 ==> !text::is_digit(name@[0]),
            forall|i: int|
                0 <= i < it.index() ==> text::is_alnum(#[trigger] name@[i]) || name@[i] == '_',
    {
        let ghost k = it.index() as int;
        assert(name@[k] == c);
        if !(text::alnum(c) || c == '_') {
            return false;
        }
        if first && text::digit(c) {
            return false;
        }
        first = false;
    }
    !first
}

/// `v` without one pair of matching quotes around it.
pub open spec fn unquoted(v: Seq<char>) -> Seq<char> {
    if v.len() >= 2 && v[0] == v.last() && (v[0] == '"' || v[0] == '\'') {
        v.subrange(1, v.len() - 1)
    } else {
        v
    }
}

/// Strips one pair of matching surrounding quotes. Values are otherwise literal:
/// no escapes or interpolation.
pub fn unquote(v: &str) -> (r: String)
    ensures
        r@ == unquoted(v@),
{
    literal(v).to_owned()
}

/// The part of `v` that is left without one pair of matching quotes around it.
fn literal<'a>(v: &'a str) -> (r: &'a str)
    ensures
        r@ == unquoted(v@),
{
    match quoted_by(v, "\"") {
        Some(inner) => {
            proof {
                reveal_strlit("\"");
                assert(inner@ =~= unquoted(v@));
            }
            inner
        },
        None => match quoted_by(v, "'") {
            Some(inner) => {
                proof {
                    reveal_strlit("'");
                    assert(inner@ =~= unquoted(v@));
                }
                inner
            },
            None => {
                proof {
                    reveal_strlit("\"");
                    reveal_strlit("'");
                    if v@.len() >= 2 && v@[0] == v@.last() && (v@[0] == '"' || v@[0] == '\'') {
                        let q = seq![v@[0]];
                        assert(v@ =~= q + v@.subrange(1, v@.len() - 1) + q);
                        assert(q =~= "\""@ || q =~= "'"@);
                    }
                }
                v
            },
        },
    }
}

/// What stands between two `q` in `v`.
fn quoted_by<'a>(v: &'a str, q: &str) -> (r: Option<&'a str>)
    ensures
        match r {
            Some(inner) => v@ == q@ + inner@ + q@,
            None => forall|inner: Seq<char>| v@ != #[trigger] (q@ + inner + q@),
        },
{
    match text::strip_prefix(v, q) {
        Some(rest) => match text::strip_suffix(rest, q) {
            Some(inner) => {
                assert(v@ =~= q@ + inner@ + q@);
                Some(inner)
            },
            None => {
                assert forall|inner: Seq<char>| v@ != #[trigger] (q@ + inner + q@) by {
                    if v@ == q@ + inner + q@ {
                        assert(rest@ =~= v@.skip(q@.len() as int));
                        assert(rest@ =~= inner + q@);
                        assert(q@.is_suffix_of(rest@)) by {
                            assert(q@ =~= rest@.subrange(inner.len() as int, rest@.len() as int));
                        }
                    }
                }
                None
            },
        },
        None => {
            assert forall|inner: Seq<char>| v@ != #[trigger] (q@ + inner + q@) by {
                if v@ == q@ + inner + q@ {
                    assert(q@ =~= v@.subrange(0, q@.len() as int));
                }
            }
            None
        },
    }
}

/// A line that holds an entry: neither blank nor a comment.
pub open spec fn holds_entry(line: Seq<char>) -> bool {
    text::trimmed(line).len() > 0 && text::trimmed(line)[0] != '#'
}

/// The `KEY=VALUE` of a line, without the `export ` that may stand before it.
pub open spec fn assignment(line: Seq<char>) -> Seq<char> {
    let t = text::trimmed(line);
    if "export "@.is_prefix_of(t) {
        t.skip("export "@.len() as int)
    } else {
        t
    }
}

/// The entries of dotenv lines, the first of which has the given number.
pub open spec fn env_entries(lines: Seq<Seq<char>>, number: nat) -> Result<Seq<Entry>, Seq<char>>
    decreases lines.len(),
{
    if lines.len() == 0 {
        Ok(Seq::empty())
    } else if !holds_entry(lines[0]) {
        env_entries(lines.drop_first(), number + 1)
    } else {
        match text::cut(assignment(lines[0]), '=') {
            None => Err("line "@ + text::decimal(number) + ": expected KEY=VALUE"@),
            Some((name, value)) => match env_entries(lines.drop_first(), number + 1) {
                Err(e) => Err(e),
                Ok(rest) => Ok(
                    seq![(text::trimmed(name), encode_utf8(unquoted(text::trimmed(value))))] + rest,
                ),
            },
        }
    }
}

/// What comes of `rest` when `front` stands before it.
pub open spec fn after(front: Seq<Entry>, rest: Result<Seq<Entry>, Seq<char>>) -> Result<
    Seq<Entry>,
    Seq<char>,
> {
    match rest {
        Ok(list) => Ok(front + list),
        Err(e) => Err(e),
    }
}

/// Taking off a line leaves less text.
pub proof fn lemma_first_line_shrinks(s: Seq<char>)
    requires
        s.len() > 0,
    ensures
        text::first_line(s).1.len() < s.len(),
        text::lines(s) == seq![text::first_line(s).0] + text::lines(text::first_line(s).1),
        text::lines(s).drop_first() == text::lines(text::first_line(s).1),
{
    text::lemma_find(s, '\n');
    assert(text::lines(s).drop_first() =~= text::lines(text::first_line(s).1));
}

/// The entries of dotenv lines: `KEY=VALUE`, `#` comments, an optional `export `
/// and one pair of quotes around the value.
pub fn parse_env(input: &str) -> (r: Result<Vec<(String, Secret)>, String>)
    ensures
        gives(r, env_entries(text::lines(input@), 1)),
{
    let mut out: Vec<(String, Secret)> = Vec::new();
    let total: usize = input.as_bytes().len();
    let mut rest = input;
    let mut done: u64 = 0;
    proof {
        text::lemma_encode_len(input@);
        assert(entries(out@) =~= Seq::<Entry>::empty());
        match env_entries(text::lines(input@), 1) {
            Ok(list) => assert(entries(out@) + list =~= list),
            Err(e) => {},
        }
    }
    while !rest.is_empty()
        invariant
            done + rest@.len() <= total,
            env_entries(text::lines(input@), 1) == after(
                entries(out@),
                env_entries(text::lines(rest@), (done + 1) as nat),
            ),
        decreases rest@.len(),
    {
        proof {
            lemma_first_line_shrinks(rest@);
        }
        let (raw, next) = text::next_line(rest);
        let line = text::trim(raw);
        rest = next;
        if line.is_empty() || text::starts_with(line, "#") {
            proof {
                reveal_strlit("#");
                assert(!holds_entry(raw@)) by {
                    if line@.len() > 0 {
                        assert("#"@[0] == line@.subrange(0, 1)[0]);
                    }
                }
            }
            done = done + 1;
            continue ;
        }
        proof {
            reveal_strlit("#");
            if line@[0] == '#' {
                assert("#"@ =~= line@.subrange(0, 1));
            }
            assert(holds_entry(raw@));
        }
        let body = match text::strip_prefix(line, "export ") {
            Some(body) => {
                proof {
                    assert("export "@ =~= line@.subrange(0, "export "@.len() as int));
                    assert(body@ =~= line@.skip("export "@.len() as int));
                }
                body
            },
            None => line,
        };
        match text::split_once(body, '=') {
            None => {
                let mut e = "line ".to_owned();
                e.append(text::decimal_text(done + 1).as_str());
                e.append(": expected KEY=VALUE");
                return Err(e);
            },
            Some((name, value)) => {
                let value = literal(text::trim(value));
                let entry = (
                    text::trim(name).to_owned(),
                    Secret(vstd::slice::slice_to_vec(value.as_bytes())),
                );
                let ghost old_out = out@;
                out.push(entry);
                done = done + 1;
                proof {
                    assert(entries(out@) =~= entries(old_out).push((entry.0@, entry.1@)));
                    match env_entries(text::lines(rest@), (done + 1) as nat) {
                        Ok(list) => {
                            assert(entries(out@) + list =~= entries(old_out) + (seq![
                                (entry.0@, entry.1@),
                            ] + list));
                        },
                        Err(e) => {},
                    }
                }
            },
        }
    }
    proof {
        assert(entries(out@) + Seq::<Entry>::empty() =~= entries(out@));
    }
    Ok(out)
}

/// A field of a JSON object: its name, and its text where its value is a string.
pub type Field = (Seq<char>, Option<Seq<char>>);

/// What JSON text holds: the fields of its object, `None` where the document is
/// no object, and an error's words where the text is no JSON document.
pub uninterp spec fn json_document(text: Seq<char>) -> Result<Option<Seq<Field>>, Seq<char>>;

/// The fields that a list of names and texts holds.
pub open spec fn fields(list: Seq<(String, Option<String>)>) -> Seq<Field> {
    list.map_values(
        |f: (String, Option<String>)|
            (
                f.0@,
                match f.1 {
                    Some(t) => Some(t@),
                    None => None,
                },
            ),
    )
}

/// The document that a reader of JSON reports.
pub open spec fn document(
    read: Result<Option<Vec<(String, Option<String>)>>, String>,
) -> Result<Option<Seq<Field>>, Seq<char>> {
    match read {
        Ok(Some(list)) => Ok(Some(fields(list@))),
        Ok(None) => Ok(None),
        Err(e) => Err(e@),
    }
}

/// Whether a name comes before another, which is not the same.
pub open spec fn ascending(a: Seq<char>, b: Seq<char>) -> bool {
    order::text_le(a, b) && a != b
}

/// Reads JSON with `serde_json::from_str` into a `Value`, and takes the fields
/// from it with `Value::as_object` and `Value::as_str`; an error is put in words
/// by its `Display`.
///
/// Claimed: the result is a function of the text, and the fields of an object come in
/// the order of their names' bytes, no two with the same name (`serde_json::Map` is a
/// `BTreeMap` of strings).
#[verifier::external_body]
fn read_json(input: &str) -> (r: Result<Option<Vec<(String, Option<String>)>>, String>)
    ensures
        document(r) == json_document(input@),
        r matches Ok(Some(list)) ==> forall|i: int, j: int|
            0 <= i < j < list@.len() ==> ascending(
                (#[trigger] list@[i]).0@,
                (#[trigger] list@[j]).0@,
            ),
{
    let value: serde_json::Value = serde_json::from_str(input).map_err(|e| e.to_string())?;
    Ok(
        value.as_object().map(
            |map| map.iter().map(|(k, v)| (k.clone(), v.as_str().map(String::from))).collect(),
        ),
    )
}

/// The entries of a JSON object's fields.
pub open spec fn object_entries(list: Seq<Field>) -> Result<Seq<Entry>, Seq<char>>
    decreases list.len(),
{
    if list.len() == 0 {
        Ok(Seq::empty())
    } else {
        match list[0].1 {
            None => Err(list[0].0 + ": JSON values must be strings"@),
            Some(value) => after(
                seq![(list[0].0, encode_utf8(value))],
                object_entries(list.drop_first()),
            ),
        }
    }
}

/// The entries of a JSON document.
pub open spec fn json_entries(doc: Result<Option<Seq<Field>>, Seq<char>>) -> Result<
    Seq<Entry>,
    Seq<char>,
> {
    match doc {
        Err(e) => Err("bad JSON: "@ + e),
        Ok(None) => Err("JSON keyset must be an object"@),
        Ok(Some(list)) => object_entries(list),
    }
}

/// Whether a secret holds the bytes of a text, and there is one where there is a text.
spec fn conceals(secret: Option<Secret>, text: Option<Seq<char>>) -> bool {
    match (secret, text) {
        (Some(s), Some(t)) => s@ == encode_utf8(t),
        (None, None) => true,
        _ => false,
    }
}

/// The fields with their texts as secrets: each text's own buffer goes into its secret, so
/// that no copy is left behind.
fn concealed(list: Vec<(String, Option<String>)>) -> (r: Vec<(String, Option<Secret>)>)
    ensures
        r@.len() == list@.len(),
        forall|i: int|
            0 <= i < r@.len() ==> (#[trigger] r@[i]).0@ == fields(list@)[i].0 && conceals(
                r@[i].1,
                fields(list@)[i].1,
            ),
{
    let ghost all = fields(list@);
    let mut list = list;
    let mut r: Vec<(String, Option<Secret>)> = Vec::new();
    let mut i: usize = 0;
    while i < list.len()
        invariant
            i <= list@.len() == all.len(),
            r@.len() == i,
            forall|k: int| i <= k < all.len() ==> (#[trigger] all[k]) == fields(list@)[k],
            forall|k: int|
                0 <= k < i ==> (#[trigger] r@[k]).0@ == all[k].0 && conceals(r@[k].1, all[k].1),
        decreases list@.len() - i,
    {
        assert(all[i as int] == fields(list@)[i as int]);
        let name = list[i].0.as_str().to_owned();
        let secret = match list[i].1.take() {
            Some(text) => Some(Secret(text.into_bytes())),
            None => None,
        };
        r.push((name, secret));
        i = i + 1;
    }
    r
}

/// The entries of what a reader of JSON reports: the fields of an object, whose
/// values must all be strings.
pub fn entries_of_json(read: Result<Option<Vec<(String, Option<String>)>>, String>) -> (r: Result<
    Vec<(String, Secret)>,
    String,
>)
    ensures
        gives(r, json_entries(document(read))),
{
    let list = match read {
        Err(e) => {
            let mut m = "bad JSON: ".to_owned();
            m.append(e.as_str());
            return Err(m);
        },
        Ok(None) => {
            return Err("JSON keyset must be an object".to_owned());
        },
        Ok(Some(list)) => list,
    };
    let ghost all = fields(list@);
    let mut list = concealed(list);
    let mut out: Vec<(String, Secret)> = Vec::new();
    let mut i: usize = 0;
    proof {
        assert(all.skip(0) =~= all);
        assert(entries(out@) =~= Seq::<Entry>::empty());
        match object_entries(all) {
            Ok(l) => assert(entries(out@) + l =~= l),
            Err(e) => {},
        }
    }
    while i < list.len()
        invariant
            i <= list@.len(),
            list@.len() == all.len(),
            forall|k: int|
                i <= k < all.len() ==> (#[trigger] list@[k]).0@ == all[k].0 && conceals(
                    list@[k].1,
                    all[k].1,
                ),
            json_entries(document(read)) == object_entries(all),
            object_entries(all) == after(entries(out@), object_entries(all.skip(i as int))),
        decreases list@.len() - i,
    {
        let ghost rest = all.skip(i as int);
        assert(rest[0] == all[i as int]);
        assert(rest.drop_first() =~= all.skip(i as int + 1));
        let name = list[i].0.as_str().to_owned();
        match list[i].1.take() {
            None => {
                let mut m = name;
                m.append(": JSON values must be strings");
                return Err(m);
            },
            Some(value) => {
                let entry = (name, value);
                let ghost old_out = out@;
                out.push(entry);
                proof {
                    assert(entries(out@) =~= entries(old_out).push((entry.0@, entry.1@)));
                    match object_entries(all.skip(i as int + 1)) {
                        Ok(l) => assert(entries(out@) + l =~= entries(old_out) + (seq![
                            (entry.0@, entry.1@),
                        ] + l)),
                        Err(e) => {},
                    }
                }
            },
        }
        i = i + 1;
    }
    proof {
        assert(all.skip(i as int) =~= Seq::<Field>::empty());
        assert(entries(out@) + Seq::<Entry>::empty() =~= entries(out@));
    }
    Ok(out)
}

/// Each field of an object gives the entry with its name.
proof fn lemma_object_names(list: Seq<Field>)
    ensures
        object_entries(list) matches Ok(all) ==> all.len() == list.len() && forall|i: int|
            0 <= i < list.len() ==> (#[trigger] all[i]).0 == list[i].0,
    decreases list.len(),
{
    if list.len() > 0 {
        lemma_object_names(list.drop_first());
    }
}

/// The entries of a JSON object of strings, in the order of their names, of which none
/// comes twice.
pub fn parse_json(input: &str) -> (r: Result<Vec<(String, Secret)>, String>)
    ensures
        gives(r, json_entries(json_document(input@))),
        r matches Ok(list) ==> forall|i: int, j: int|
            0 <= i < j < list@.len() ==> ascending(
                (#[trigger] list@[i]).0@,
                (#[trigger] list@[j]).0@,
            ),
{
    let read = read_json(input);
    let ghost said = read;
    let r = entries_of_json(read);
    proof {
        if let (Ok(list), Ok(Some(l))) = (&r, &said) {
            lemma_object_names(fields(l@));
            assert forall|i: int, j: int| 0 <= i < j < list@.len() implies ascending(
                (#[trigger] list@[i]).0@,
                (#[trigger] list@[j]).0@,
            ) by {
                assert(entries(list@)[i].0 == fields(l@)[i].0);
                assert(entries(list@)[j].0 == fields(l@)[j].0);
                assert(ascending(l@[i].0@, l@[j].0@));
            }
        }
    }
    r
}

/// What is wrong with the entry at `i`, given those before it.
pub open spec fn fault(list: Seq<Entry>, i: int) -> Option<Seq<char>> {
    if !is_name(list[i].0) {
        Some(
            "invalid key name "@ + text::debug_text(list[i].0)
                + " (use letters, digits, underscore)"@,
        )
    } else if list[i].1.len() == 0 {
        Some(list[i].0 + ": empty values are not supported by kernel user keys"@)
    } else if exists|j: int| 0 <= j < i && (#[trigger] list[j]).0 == list[i].0 {
        Some("duplicate key "@ + list[i].0)
    } else {
        None
    }
}

/// What is wrong first among the entries from `i` on.
pub open spec fn first_fault(list: Seq<Entry>, i: int) -> Option<Seq<char>>
    decreases list.len() - i,
{
    if i >= list.len() {
        None
    } else if fault(list, i) is Some {
        fault(list, i)
    } else {
        first_fault(list, i + 1)
    }
}

/// A keyset made of the given entries: at least one, each with a valid name that
/// is its own and a value that is not empty.
pub open spec fn keyset_of(list: Result<Seq<Entry>, Seq<char>>) -> Result<Seq<Entry>, Seq<char>> {
    match list {
        Err(e) => Err(e),
        Ok(list) => match first_fault(list, 0) {
            Some(e) => Err(e),
            None => if list.len() == 0 {
                Err("keyset is empty"@)
            } else {
                Ok(list)
            },
        },
    }
}

/// Whether a keyset's text is JSON: its first character that is no white space
/// opens an object.
pub open spec fn looks_like_json(input: Seq<char>) -> bool {
    text::trim_front(input).len() > 0 && text::trim_front(input)[0] == '{'
}

/// The keyset that a text holds.
pub open spec fn keyset(input: Seq<char>) -> Result<Seq<Entry>, Seq<char>> {
    keyset_of(
        if looks_like_json(input) {
            json_entries(json_document(input))
        } else {
            env_entries(text::lines(input), 1)
        },
    )
}

/// Whether `input` opens a JSON object.
fn opens_object(input: &str) -> (r: bool)
    ensures
        r == looks_like_json(input@),
{
    for c in it: input.chars()
        invariant
            it.seq() == input@,
            forall|k: int| 0 <= k < it.index() ==> text::is_space(#[trigger] input@[k]),
    {
        let ghost k = it.index() as int;
        assert(input@[k] == c);
        if !text::space(c) {
            proof {
                text::lemma_trim_front(input@, k);
            }
            return c == '{';
        }
    }
    proof {
        text::lemma_trim_front(input@, input@.len() as int);
    }
    false
}

/// Checks the entries of a keyset: what is wrong with the first that is wrong.
pub fn check_entries(list: Vec<(String, Secret)>) -> (r: Result<Vec<(String, Secret)>, String>)
    ensures
        gives(r, keyset_of(Ok(entries(list@)))),
{
    let ghost all = entries(list@);
    let mut i: usize = 0;
    while i < list.len()
        invariant
            i <= list@.len(),
            all == entries(list@),
            first_fault(all, 0) == first_fault(all, i as int),
        decreases list@.len() - i,
    {
        match fault_at(&list, i) {
            Some(e) => {
                return Err(e);
            },
            None => {},
        }
        i = i + 1;
    }
    if list.len() == 0 {
        return Err("keyset is empty".to_owned());
    }
    Ok(list)
}

/// What is wrong with the entry at `i`, given those before it.
fn fault_at(list: &Vec<(String, Secret)>, i: usize) -> (r: Option<String>)
    requires
        i < list@.len(),
    ensures
        match r {
            Some(e) => fault(entries(list@), i as int) == Some(e@),
            None => fault(entries(list@), i as int) is None,
        },
{
    let ghost all = entries(list@);
    let name = list[i].0.as_str();
    assert(all[i as int] == (name@, list@[i as int].1@));
    if !valid_name(name) {
        let mut e = "invalid key name ".to_owned();
        e.append(text::quoted(name).as_str());
        e.append(" (use letters, digits, underscore)");
        return Some(e);
    }
    if list[i].1.0.len() == 0 {
        let mut e = name.to_owned();
        e.append(": empty values are not supported by kernel user keys");
        return Some(e);
    }
    let mut j: usize = 0;
    while j < i
        invariant
            j <= i < list@.len(),
            all == entries(list@),
            name@ == all[i as int].0,
            is_name(name@),
            all[i as int].1.len() != 0,
            forall|k: int| 0 <= k < j ==> (#[trigger] all[k]).0 != name@,
        decreases i - j,
    {
        assert(all[j as int].0 == list@[j as int].0@);
        if text::same(list[j].0.as_str(), name) {
            let mut e = "duplicate key ".to_owned();
            e.append(name);
            return Some(e);
        }
        j = j + 1;
    }
    None
}

/// Parses a keyset: a JSON object of strings, or dotenv lines. Every entry must
/// have a valid name, which no other entry has, and a value that is not empty.
pub fn parse_keyset(input: &str) -> (r: Result<Vec<(String, Secret)>, String>)
    ensures
        gives(r, keyset(input@)),
{
    let list = if opens_object(input) {
        parse_json(input)
    } else {
        parse_env(input)
    };
    match list {
        Ok(list) => check_entries(list),
        Err(e) => Err(e),
    }
}

/// Whether the entries make a keyset: at least one, each with a valid name that is
/// its own and a value that is not empty.
pub open spec fn is_keyset(list: Seq<Entry>) -> bool {
    &&& list.len() > 0
    &&& forall|i: int| 0 <= i < list.len() ==> is_name((#[trigger] list[i]).0)
    &&& forall|i: int| 0 <= i < list.len() ==> (#[trigger] list[i]).1.len() > 0
    &&& forall|i: int, j: int|
        0 <= i < j < list.len() ==> (#[trigger] list[i]).0 != (#[trigger] list[j]).0
}

/// Nothing is wrong from `i` on exactly if nothing is wrong with any entry there.
proof fn lemma_first_fault(list: Seq<Entry>, i: int)
    requires
        0 <= i <= list.len(),
    ensures
        first_fault(list, i) is None <==> forall|k: int|
            i <= k < list.len() ==> fault(list, k) is None,
    decreases list.len() - i,
{
    if i < list.len() {
        lemma_first_fault(list, i + 1);
        if fault(list, i) is None && first_fault(list, i + 1) is None {
            assert forall|k: int| i <= k < list.len() implies fault(list, k) is None by {
                if k > i {
                    assert(i + 1 <= k);
                }
            }
        }
    }
}

/// Entries are accepted, and then unchanged, exactly if they make a keyset.
pub proof fn law_keyset_accepted(list: Seq<Entry>)
    ensures
        keyset_of(Ok(list)) is Ok <==> is_keyset(list),
        is_keyset(list) ==> keyset_of(Ok(list)) == Ok::<Seq<Entry>, Seq<char>>(list),
{
    lemma_first_fault(list, 0);
    if first_fault(list, 0) is None {
        assert forall|i: int| 0 <= i < list.len() implies is_name((#[trigger] list[i]).0)
            && list[i].1.len() > 0 by {
            assert(fault(list, i) is None);
        }
        assert forall|i: int, j: int| 0 <= i < j < list.len() implies (#[trigger] list[i]).0 != (
        #[trigger] list[j]).0 by {
            assert(fault(list, j) is None);
        }
    }
    if is_keyset(list) {
        assert forall|k: int| 0 <= k < list.len() implies fault(list, k) is None by {
            assert(is_name(list[k].0));
            assert(list[k].1.len() > 0);
        }
    }
}

/// Whatever text is read, a keyset that comes of it is never empty, has only valid
/// names, no name twice and no empty value.
pub proof fn law_keyset_valid(input: Seq<char>)
    ensures
        keyset(input) matches Ok(list) ==> is_keyset(list),
{
    let list = if looks_like_json(input) {
        json_entries(json_document(input))
    } else {
        env_entries(text::lines(input), 1)
    };
    if let Ok(l) = list {
        law_keyset_accepted(l);
    }
}

/// The dotenv line that gives `name` the value `value`.
pub open spec fn env_line(name: Seq<char>, value: Seq<char>) -> Seq<char> {
    name + seq!['=', '"'] + value + seq!['"']
}

/// The dotenv lines that give each name its value.
pub open spec fn env_text(list: Seq<(Seq<char>, Seq<char>)>) -> Seq<char>
    decreases list.len(),
{
    if list.len() == 0 {
        Seq::empty()
    } else {
        env_line(list[0].0, list[0].1) + seq!['\n'] + env_text(list.drop_first())
    }
}

/// The entries of names and texts.
pub open spec fn text_entries(list: Seq<(Seq<char>, Seq<char>)>) -> Seq<Entry> {
    list.map_values(|e: (Seq<char>, Seq<char>)| (e.0, encode_utf8(e.1)))
}

/// Text that neither begins nor ends with white space stays when it is trimmed.
proof fn lemma_trimmed_stays(s: Seq<char>)
    requires
        s.len() > 0,
        !text::is_space(s[0]),
        !text::is_space(s.last()),
    ensures
        text::trimmed(s) == s,
{
    text::lemma_trimmed(s, 0, s.len() as int);
    assert(s.subrange(0, s.len() as int) =~= s);
}

/// A line made by `env_line` holds its entry.
proof fn lemma_env_line(name: Seq<char>, value: Seq<char>)
    requires
        is_name(name),
    ensures
        holds_entry(env_line(name, value)),
        text::cut(assignment(env_line(name, value)), '=') == Some(
            (name, seq!['"'] + value + seq!['"']),
        ),
        text::trimmed(name) == name,
        unquoted(text::trimmed(seq!['"'] + value + seq!['"'])) == value,
{
    let t = env_line(name, value);
    let n = name.len() as int;
    let v = seq!['"'] + value + seq!['"'];
    assert(t[0] == name[0]);
    assert(text::is_alnum(name[0]) || name[0] == '_');
    assert(text::is_alnum(name[n - 1]) || name[n - 1] == '_');
    assert(t.last() == '"');
    lemma_trimmed_stays(t);
    lemma_trimmed_stays(name);
    assert(v[0] == '"' && v.last() == '"');
    lemma_trimmed_stays(v);
    assert(v.subrange(1, v.len() - 1) =~= value);
    assert(t[n] == '=');
    reveal_strlit("export ");
    if "export "@.is_prefix_of(t) {
        assert("export "@[6] == t.subrange(0, 7)[6]);
        if n > 6 {
            assert(t[6] == name[6]);
            assert(text::is_alnum(name[6]) || name[6] == '_');
        } else if n < 6 {
            assert("export "@[n] == t.subrange(0, 7)[n]);
        }
        assert(false);
    }
    assert forall|i: int| 0 <= i < n implies t[i] != '=' by {
        assert(t[i] == name[i]);
        assert(text::is_alnum(name[i]) || name[i] == '_');
    }
    text::lemma_find_is(t, '=', n);
    assert(t.take(n) =~= name);
    assert(t.skip(n + 1) =~= v);
}

/// Taking off a line that ends in a quote.
proof fn lemma_lines_step(line: Seq<char>, rest: Seq<char>)
    requires
        line.len() > 0,
        line.last() == '"',
        !line.contains('\n'),
    ensures
        text::lines(line + seq!['\n'] + rest) == seq![line] + text::lines(rest),
{
    let s = line + seq!['\n'] + rest;
    let n = line.len() as int;
    assert(s[n] == '\n');
    assert forall|i: int| 0 <= i < n implies s[i] != '\n' by {
        assert(s[i] == line[i]);
        assert(line.contains(line[i]));
    }
    text::lemma_find_is(s, '\n', n);
    assert(s.take(n) =~= line);
    assert(s.skip(n + 1) =~= rest);
    lemma_first_line_shrinks(s);
}

/// The lines of `env_text` hold its entries.
proof fn lemma_env_text(list: Seq<(Seq<char>, Seq<char>)>, number: nat)
    requires
        forall|i: int| 0 <= i < list.len() ==> is_name((#[trigger] list[i]).0),
        forall|i: int| 0 <= i < list.len() ==> !(#[trigger] list[i]).1.contains('\n'),
    ensures
        env_entries(text::lines(env_text(list)), number) == Ok::<Seq<Entry>, Seq<char>>(
            text_entries(list),
        ),
    decreases list.len(),
{
    if list.len() == 0 {
        assert(text_entries(list) =~= Seq::<Entry>::empty());
    } else {
        let (name, value) = list[0];
        let rest = list.drop_first();
        let line = env_line(name, value);
        assert(is_name(list[0].0) && !list[0].1.contains('\n'));
        assert(!line.contains('\n')) by {
            if line.contains('\n') {
                let i = choose|i: int| 0 <= i < line.len() && line[i] == '\n';
                if i < name.len() {
                    assert(line[i] == name[i]);
                    assert(text::is_alnum(name[i]) || name[i] == '_');
                } else if name.len() + 2 <= i < name.len() + 2 + value.len() {
                    assert(line[i] == value[i - name.len() - 2]);
                    assert(value.contains(value[i - name.len() - 2]));
                }
                assert(false);
            }
        }
        lemma_lines_step(line, env_text(rest));
        lemma_env_line(name, value);
        lemma_env_text(rest, number + 1);
        let all = text::lines(env_text(list));
        assert(all[0] == line);
        assert(all.drop_first() =~= text::lines(env_text(rest)));
        assert(text_entries(list) =~= seq![(name, encode_utf8(value))] + text_entries(rest));
    }
}

/// Values are literal: for any keyset whose values are texts without a line feed,
/// the dotenv lines with each value in double quotes give exactly that keyset,
/// whatever else stands in the values.
pub proof fn law_env_round_trip(list: Seq<(Seq<char>, Seq<char>)>)
    requires
        is_keyset(text_entries(list)),
        forall|i: int| 0 <= i < list.len() ==> !(#[trigger] list[i]).1.contains('\n'),
    ensures
        keyset(env_text(list)) == Ok::<Seq<Entry>, Seq<char>>(text_entries(list)),
{
    let all = text_entries(list);
    assert forall|i: int| 0 <= i < list.len() implies is_name((#[trigger] list[i]).0) by {
        assert(is_name(all[i].0));
    }
    lemma_env_text(list, 1);
    law_keyset_accepted(all);
    let input = env_text(list);
    let name = list[0].0;
    assert(is_name(list[0].0));
    assert(input[0] == name[0]);
    assert(text::is_alnum(name[0]) || name[0] == '_');
    text::lemma_trim_front(input, 0);
    assert(input.skip(0) =~= input);
}

/// A name is made character by character: the first is a letter or an underscore, and
/// each that is added is a letter, a digit or an underscore.
pub proof fn law_name(s: Seq<char>, c: char)
    ensures
        !is_name(Seq::<char>::empty()),
        is_name(seq![c]) <==> 65 <= c as int <= 90 || 97 <= c as int <= 122 || c == '_',
        s.len() > 0 ==> (is_name(s.push(c)) <==> is_name(s) && (48 <= c as int <= 57 || 65
            <= c as int <= 90 || 97 <= c as int <= 122 || c == '_')),
{
    let t = s.push(c);
    assert(seq![c][0] == c);
    if s.len() > 0 {
        assert(t[0] == s[0]);
        if is_name(t) {
            assert forall|i: int| 0 <= i < s.len() implies text::is_alnum(#[trigger] s[i]) || s[i]
                == '_' by {
                assert(t[i] == s[i]);
            }
            assert(t[s.len() as int] == c);
        }
        if is_name(s) && (text::is_alnum(c) || c == '_') {
            assert forall|i: int| 0 <= i < t.len() implies text::is_alnum(#[trigger] t[i]) || t[i]
                == '_' by {
                if i < s.len() {
                    assert(t[i] == s[i]);
                }
            }
        }
    }
}

/// One pair of matching quotes is stripped, double or single, and a value that is not
/// enclosed in such a pair stays as it is.
pub proof fn law_unquoted(v: Seq<char>, q: char)
    ensures
        q == '"' || q == '\'' ==> unquoted(seq![q] + v + seq![q]) == v,
        (forall|c: char, inner: Seq<char>|
            c == '"' || c == '\'' ==> v != #[trigger] (seq![c] + inner + seq![c])) ==> unquoted(v)
            == v,
{
    let t = seq![q] + v + seq![q];
    assert(t.subrange(1, t.len() - 1) =~= v);
    assert(t[0] == q && t.last() == q);
    if v.len() >= 2 && v[0] == v.last() && (v[0] == '"' || v[0] == '\'') {
        let inner = v.subrange(1, v.len() - 1);
        assert(v =~= seq![v[0]] + inner + seq![v[0]]);
    }
}

/// The entries of a dotenv text whose first line has the given number.
pub open spec fn env(input: Seq<char>, number: nat) -> Result<Seq<Entry>, Seq<char>> {
    env_entries(text::lines(input), number)
}

/// The first line of a text is the one before its first line feed, trimmed as it is
/// without a carriage return at its end.
proof fn lemma_env_first(line: Seq<char>, rest: Seq<char>) -> (raw: Seq<char>)
    requires
        !line.contains('\n'),
    ensures
        text::trimmed(raw) == text::trimmed(line),
        text::lines(line + seq!['\n'] + rest) == seq![raw] + text::lines(rest),
{
    if line.len() > 0 && line.last() == '\r' {
        let less = line.drop_last();
        assert(!less.contains('\n')) by {
            if less.contains('\n') {
                let i = choose|i: int| 0 <= i < less.len() && less[i] == '\n';
                assert(line[i] == '\n');
            }
        }
        text::law_lines(less, rest);
        assert(less + seq!['\r', '\n'] + rest =~= line + seq!['\n'] + rest);
        assert(less.push('\r') =~= line);
        text::lemma_trimmed_more(less, '\r');
        less
    } else {
        text::law_lines(line, rest);
        line
    }
}

/// Blank lines and comments give nothing: a line of white space, or one whose first
/// character that is none is a `#`, whatever follows that.
pub proof fn law_env_skips(lead: Seq<char>, note: Seq<char>, rest: Seq<char>, number: nat)
    requires
        text::is_blank(lead),
        !lead.contains('\n'),
        !note.contains('\n'),
    ensures
        env(lead + seq!['\n'] + rest, number) == env(rest, number + 1),
        env(lead + seq!['#'] + note + seq!['\n'] + rest, number) == env(rest, number + 1),
{
    let none = Seq::<char>::empty();
    let raw = lemma_env_first(lead, rest);
    assert(lead =~= lead + none + none);
    text::law_trimmed(lead, none, none);
    assert((seq![raw] + text::lines(rest)).drop_first() =~= text::lines(rest));
    let line = lead + seq!['#'] + note;
    assert(!line.contains('\n')) by {
        if line.contains('\n') {
            let i = choose|i: int| 0 <= i < line.len() && line[i] == '\n';
            if i < lead.len() {
                assert(lead[i] == '\n');
            } else {
                assert(note[i - lead.len() - 1] == '\n');
            }
        }
    }
    let raw = lemma_env_first(line, rest);
    let (a, m, b) = text::lemma_parts(note);
    let body = if m.len() == 0 {
        seq!['#']
    } else {
        seq!['#'] + a + m
    };
    let tail = if m.len() == 0 {
        a + b
    } else {
        b
    };
    assert(line =~= lead + body + tail);
    assert(text::is_blank(tail)) by {
        assert forall|i: int| 0 <= i < tail.len() implies text::is_space(#[trigger] tail[i]) by {
            if m.len() == 0 {
                if i < a.len() {
                    assert(text::is_space(a[i]));
                } else {
                    assert(text::is_space(b[i - a.len()]));
                }
            } else {
                assert(text::is_space(b[i]));
            }
        }
    }
    assert(body[0] == '#');
    if m.len() > 0 {
        assert(body.last() == m.last());
    }
    text::law_trimmed(lead, body, tail);
    assert((seq![raw] + text::lines(rest)).drop_first() =~= text::lines(rest));
}

/// What stands before a name: nothing, or `export ` and white space.
pub open spec fn exporting(exported: bool, pad: Seq<char>) -> Seq<char> {
    if exported {
        seq!['e', 'x', 'p', 'o', 'r', 't', ' '] + pad
    } else {
        pad
    }
}

/// An assignment gives its entry: the name is what stands before the first `=`, and the
/// value what stands behind it, each without the white space around it, and the value
/// without one pair of quotes. `export ` may stand before the name, and white space
/// anywhere; the lines that follow give theirs.
pub proof fn law_env_assigns(
    lead: Seq<char>,
    exported: bool,
    pre: Seq<char>,
    name: Seq<char>,
    pad: Seq<char>,
    gap: Seq<char>,
    value: Seq<char>,
    tail: Seq<char>,
    rest: Seq<char>,
    number: nat,
)
    requires
        text::is_blank(lead) && !lead.contains('\n'),
        text::is_blank(pre) && !pre.contains('\n'),
        text::is_blank(pad) && !pad.contains('\n'),
        text::is_blank(gap) && !gap.contains('\n'),
        text::is_blank(tail) && !tail.contains('\n'),
        text::is_tight(name) && !name.contains('\n') && !name.contains('='),
        text::is_tight(value) && !value.contains('\n'),
        !exported ==> pre.len() == 0 && (name.len() == 0 ==> pad.len() == 0),
        !exported && name.len() > 0 ==> name[0] != '#',
        !exported ==> !seq!['e', 'x', 'p', 'o', 'r', 't', ' '].is_prefix_of(name + pad),
    ensures
        env(
            lead + exporting(exported, pre) + name + pad + seq!['='] + gap + value + tail
                + seq!['\n'] + rest,
            number,
        ) == after(seq![(name, encode_utf8(unquoted(value)))], env(rest, number + 1)),
{
    let none = Seq::<char>::empty();
    let front = pre + name + pad;
    let back = if value.len() == 0 {
        none
    } else {
        gap + value
    };
    let end = if value.len() == 0 {
        gap + tail
    } else {
        tail
    };
    let body = front + seq!['='] + back;
    let m = if exported {
        seq!['e', 'x', 'p', 'o', 'r', 't', ' '] + body
    } else {
        body
    };
    let line = lead + exporting(exported, pre) + name + pad + seq!['='] + gap + value + tail;
    assert(line =~= lead + m + end);
    lemma_one_line(lead, exported, pre, name, pad, gap, value, tail);
    lemma_blank_end(gap, value, tail);
    assert(m.last() == body.last());
    assert(body.last() == if value.len() == 0 {
        '='
    } else {
        value.last()
    });
    assert(m[0] == if exported {
        'e'
    } else if name.len() > 0 {
        name[0]
    } else {
        '='
    });
    text::law_trimmed(lead, m, end);
    let raw = lemma_env_first(line, rest);
    let all = seq![raw] + text::lines(rest);
    assert(all[0] == raw && all.drop_first() =~= text::lines(rest));
    lemma_exported(exported, pre, name, pad, back, raw);
    lemma_assigned(pre, name, pad, gap, value);
}

/// An assignment is one line.
proof fn lemma_one_line(
    lead: Seq<char>,
    exported: bool,
    pre: Seq<char>,
    name: Seq<char>,
    pad: Seq<char>,
    gap: Seq<char>,
    value: Seq<char>,
    tail: Seq<char>,
)
    requires
        !lead.contains('\n'),
        !pre.contains('\n'),
        !name.contains('\n'),
        !pad.contains('\n'),
        !gap.contains('\n'),
        !value.contains('\n'),
        !tail.contains('\n'),
    ensures
        !(lead + exporting(exported, pre) + name + pad + seq!['='] + gap + value + tail).contains(
            '\n',
        ),
{
    let word = seq!['e', 'x', 'p', 'o', 'r', 't', ' '];
    assert(!word.contains('\n'));
    let mid = exporting(exported, pre);
    text::lemma_not_in(word, pre, '\n');
    let a = lead + mid;
    text::lemma_not_in(lead, mid, '\n');
    text::lemma_not_in(a, name, '\n');
    text::lemma_not_in(a + name, pad, '\n');
    assert(!seq!['='].contains('\n'));
    let b = a + name + pad + seq!['='];
    text::lemma_not_in(a + name + pad, seq!['='], '\n');
    text::lemma_not_in(b, gap, '\n');
    text::lemma_not_in(b + gap, value, '\n');
    text::lemma_not_in(b + gap + value, tail, '\n');
}

/// White space around an empty value is white space at the end.
proof fn lemma_blank_end(gap: Seq<char>, value: Seq<char>, tail: Seq<char>)
    requires
        text::is_blank(gap),
        text::is_blank(tail),
    ensures
        text::is_blank(
            if value.len() == 0 {
                gap + tail
            } else {
                tail
            },
        ),
{
    let end = gap + tail;
    assert forall|i: int| 0 <= i < end.len() implies text::is_space(#[trigger] end[i]) by {
        if i < gap.len() {
            assert(text::is_space(gap[i]));
        } else {
            assert(text::is_space(tail[i - gap.len()]));
        }
    }
}

/// `export ` is taken off where it stands, and nothing else is.
proof fn lemma_exported(
    exported: bool,
    pre: Seq<char>,
    name: Seq<char>,
    pad: Seq<char>,
    back: Seq<char>,
    raw: Seq<char>,
)
    requires
        ({
            let word = seq!['e', 'x', 'p', 'o', 'r', 't', ' '];
            let body = pre + name + pad + seq!['='] + back;
            &&& text::trimmed(raw) == if exported {
                word + body
            } else {
                body
            }
            &&& !exported ==> pre.len() == 0 && !word.is_prefix_of(name + pad)
        }),
    ensures
        assignment(raw) == pre + name + pad + seq!['='] + back,
{
    let word = seq!['e', 'x', 'p', 'o', 'r', 't', ' '];
    let body = pre + name + pad + seq!['='] + back;
    let m = text::trimmed(raw);
    reveal_strlit("export ");
    assert("export "@ =~= word);
    if exported {
        assert(word =~= m.subrange(0, 7));
        assert(m.skip(7) =~= body);
    } else if word.is_prefix_of(m) {
        let front = name + pad;
        let k = front.len() as int;
        assert forall|i: int| 0 <= i < 7 implies word[i] == m[i] by {
            assert(word[i] == m.subrange(0, 7)[i]);
        }
        assert(m =~= front + seq!['='] + back);
        if k < 7 {
            assert(m[k] == '=');
            assert(word[k] == '=');
        } else {
            assert(word =~= front.subrange(0, 7)) by {
                assert forall|i: int| 0 <= i < 7 implies word[i] == front[i] by {
                    assert(m[i] == front[i]);
                }
            }
        }
        assert(false);
    }
}

/// The two sides of an assignment.
proof fn lemma_assigned(
    pre: Seq<char>,
    name: Seq<char>,
    pad: Seq<char>,
    gap: Seq<char>,
    value: Seq<char>,
)
    requires
        text::is_blank(pre),
        text::is_blank(pad),
        text::is_blank(gap),
        text::is_tight(name) && !name.contains('='),
        text::is_tight(value),
    ensures
        ({
            let front = pre + name + pad;
            let back = if value.len() == 0 {
                Seq::empty()
            } else {
                gap + value
            };
            &&& text::cut(front + seq!['='] + back, '=') == Some((front, back))
            &&& text::trimmed(front) == name
            &&& text::trimmed(back) == value
        }),
{
    let none = Seq::<char>::empty();
    let front = pre + name + pad;
    let back = if value.len() == 0 {
        none
    } else {
        gap + value
    };
    assert(!front.contains('=')) by {
        if front.contains('=') {
            let i = choose|i: int| 0 <= i < front.len() && front[i] == '=';
            if i < pre.len() {
                assert(text::is_space(pre[i]));
            } else if i < pre.len() + name.len() {
                assert(name[i - pre.len()] == '=');
            } else {
                assert(text::is_space(pad[i - pre.len() - name.len()]));
            }
        }
    }
    text::law_cut(front, '=', back);
    text::law_trimmed(pre, name, pad);
    if value.len() == 0 {
        assert(none =~= none + none + none);
        text::law_trimmed(none, none, none);
        assert(value =~= none);
    } else {
        assert(back =~= gap + value + none);
        text::law_trimmed(gap, value, none);
    }
}

/// A line that is no comment, not blank and has no `=` is refused, with its number.
pub proof fn law_env_refuses(
    lead: Seq<char>,
    body: Seq<char>,
    tail: Seq<char>,
    rest: Seq<char>,
    number: nat,
)
    requires
        text::is_blank(lead) && !lead.contains('\n'),
        text::is_blank(tail) && !tail.contains('\n'),
        text::is_tight(body) && body.len() > 0 && body[0] != '#',
        !body.contains('\n') && !body.contains('='),
    ensures
        env(lead + body + tail + seq!['\n'] + rest, number) == Err::<Seq<Entry>, Seq<char>>(
            "line "@ + text::decimal(number) + ": expected KEY=VALUE"@,
        ),
{
    let line = lead + body + tail;
    assert(!line.contains('\n')) by {
        if line.contains('\n') {
            let i = choose|i: int| 0 <= i < line.len() && line[i] == '\n';
            if i < lead.len() {
                assert(lead[i] == '\n');
            } else if i < lead.len() + body.len() {
                assert(body[i - lead.len()] == '\n');
            } else {
                assert(tail[i - lead.len() - body.len()] == '\n');
            }
        }
    }
    text::law_trimmed(lead, body, tail);
    let raw = lemma_env_first(line, rest);
    let a = assignment(raw);
    assert(!a.contains('=')) by {
        if a.contains('=') {
            let i = choose|i: int| 0 <= i < a.len() && a[i] == '=';
            let k = body.len() - a.len();
            assert(body[i + k] == '=');
        }
    }
    text::law_cut(a, '=', a);
    assert(text::lines(line + seq!['\n'] + rest)[0] == raw);
}

/// The last line needs no line feed.
pub proof fn law_env_last(line: Seq<char>, number: nat)
    requires
        !line.contains('\n'),
    ensures
        env(Seq::<char>::empty(), number) == Ok::<Seq<Entry>, Seq<char>>(Seq::empty()),
        env(line, number) == env(line + seq!['\n'], number),
{
    let none = Seq::<char>::empty();
    text::law_lines(line, none);
    assert(line + seq!['\n'] + none =~= line + seq!['\n']);
    let raw = lemma_env_first(line, none);
    reveal_with_fuel(env_entries, 2);
    let two = text::lines(line + seq!['\n']);
    assert(two =~= seq![raw]);
    assert(two.drop_first() =~= Seq::<Seq<char>>::empty());
    if line.len() == 0 {
        assert(none =~= none + none + none);
        text::law_trimmed(none, none, none);
        assert(line =~= none);
    } else {
        assert(seq![line].drop_first() =~= Seq::<Seq<char>>::empty());
        assert(seq![line][0] == line);
    }
}

/// A line that gives `name` the value `value`, bare or between two quotes.
pub open spec fn written(name: Seq<char>, value: Seq<char>, quote: Option<char>) -> Seq<char> {
    match quote {
        Some(q) => name + seq!['='] + (seq![q] + value + seq![q]),
        None => name + seq!['='] + value,
    }
}

/// The lines that give each name its value.
pub open spec fn written_all(list: Seq<(Seq<char>, Seq<char>, Option<char>)>) -> Seq<char>
    decreases list.len(),
{
    if list.len() == 0 {
        Seq::empty()
    } else {
        written(list[0].0, list[0].1, list[0].2) + seq!['\n'] + written_all(list.drop_first())
    }
}

/// Whether a value can be written so: between double or single quotes any value of one
/// line, and bare one that neither begins nor ends with white space and is not itself
/// enclosed in a pair of quotes.
pub open spec fn can_write(value: Seq<char>, quote: Option<char>) -> bool {
    &&& !value.contains('\n')
    &&& match quote {
        Some(q) => q == '"' || q == '\'',
        None => text::is_tight(value) && forall|c: char, inner: Seq<char>|
            c == '"' || c == '\'' ==> value != #[trigger] (seq![c] + inner + seq![c]),
    }
}

/// The names and the bytes of the values that lines give.
pub open spec fn written_entries(list: Seq<(Seq<char>, Seq<char>, Option<char>)>) -> Seq<Entry> {
    list.map_values(|e: (Seq<char>, Seq<char>, Option<char>)| (e.0, encode_utf8(e.1)))
}

/// The lines give their entries.
proof fn lemma_written(list: Seq<(Seq<char>, Seq<char>, Option<char>)>, number: nat)
    requires
        forall|i: int| 0 <= i < list.len() ==> is_name((#[trigger] list[i]).0),
        forall|i: int| 0 <= i < list.len() ==> can_write((#[trigger] list[i]).1, list[i].2),
    ensures
        env(written_all(list), number) == Ok::<Seq<Entry>, Seq<char>>(written_entries(list)),
    decreases list.len(),
{
    let none = Seq::<char>::empty();
    if list.len() == 0 {
        law_env_last(none, number);
        assert(written_entries(list) =~= Seq::<Entry>::empty());
    } else {
        let (name, value, quote) = list[0];
        let rest = list.drop_first();
        assert(is_name(list[0].0) && can_write(list[0].1, list[0].2));
        lemma_written(rest, number + 1);
        let shown = match quote {
            Some(q) => seq![q] + value + seq![q],
            None => value,
        };
        assert(text::is_tight(shown)) by {
            if let Some(q) = quote {
                assert(shown[0] == q && shown.last() == q);
            }
        }
        assert(!shown.contains('\n')) by {
            if shown.contains('\n') {
                let i = choose|i: int| 0 <= i < shown.len() && shown[i] == '\n';
                if quote is Some {
                    assert(value[i - 1] == '\n');
                }
            }
        }
        law_unquoted(
            value,
            match quote {
                Some(q) => q,
                None => '"',
            },
        );
        assert forall|i: int| 0 <= i < name.len() implies text::is_alnum(#[trigger] name[i])
            || name[i] == '_' by {}
        let n = name.len() - 1;
        assert(text::is_alnum(name[0]) || name[0] == '_');
        assert(text::is_alnum(name[n]) || name[n] == '_');
        assert(!name.contains('\n') && !name.contains('='));
        let word = seq!['e', 'x', 'p', 'o', 'r', 't', ' '];
        assert(name + none =~= name);
        if word.is_prefix_of(name) {
            assert(word[6] == name.subrange(0, 7)[6]);
            assert(text::is_alnum(name[6]) || name[6] == '_');
        }
        law_env_assigns(
            none,
            false,
            none,
            name,
            none,
            none,
            shown,
            none,
            written_all(rest),
            number,
        );
        assert(none + exporting(false, none) + name + none + seq!['='] + none + shown + none
            + seq!['\n'] + written_all(rest) =~= written_all(list));
        assert(written_entries(list) =~= seq![(name, encode_utf8(value))] + written_entries(rest));
    }
}

/// Values are literal, bare or quoted: the dotenv lines of any keyset whose values are
/// texts of one line give exactly that keyset, each value as it stands, whatever else
/// stands in it.
pub proof fn law_env_literal(list: Seq<(Seq<char>, Seq<char>, Option<char>)>)
    requires
        is_keyset(written_entries(list)),
        forall|i: int| 0 <= i < list.len() ==> can_write((#[trigger] list[i]).1, list[i].2),
    ensures
        keyset(written_all(list)) == Ok::<Seq<Entry>, Seq<char>>(written_entries(list)),
{
    let all = written_entries(list);
    assert forall|i: int| 0 <= i < list.len() implies is_name((#[trigger] list[i]).0) by {
        assert(is_name(all[i].0));
    }
    lemma_written(list, 1);
    law_keyset_accepted(all);
    let input = written_all(list);
    let name = list[0].0;
    assert(is_name(list[0].0));
    assert(input[0] == name[0]);
    assert(text::is_alnum(name[0]) || name[0] == '_');
    law_format(Seq::empty(), name[0], input.skip(1));
    assert(Seq::<char>::empty() + seq![name[0]] + input.skip(1) =~= input);
}

/// A text is read as JSON where its first character that is no white space is a `{`, and
/// as dotenv lines otherwise.
pub proof fn law_format(lead: Seq<char>, c: char, rest: Seq<char>)
    requires
        text::is_blank(lead),
        !text::is_space(c),
    ensures
        c == '{' ==> keyset(lead + seq![c] + rest) == keyset_of(
            json_entries(json_document(lead + seq![c] + rest)),
        ),
        c != '{' ==> keyset(lead + seq![c] + rest) == keyset_of(env(lead + seq![c] + rest, 1)),
        keyset(lead) == keyset_of(env(lead, 1)),
{
    let s = lead + seq![c] + rest;
    assert forall|k: int| 0 <= k < lead.len() implies text::is_space(s[k]) by {
        assert(text::is_space(lead[k]));
    }
    text::lemma_trim_front(s, lead.len() as int);
    text::lemma_trim_front(lead, lead.len() as int);
}

/// A JSON object gives an entry for each field, with the field's name and the bytes of its
/// text, where all fields are strings; otherwise the first that is none is named.
pub proof fn law_json(list: Seq<Field>)
    ensures
        (forall|i: int| 0 <= i < list.len() ==> (#[trigger] list[i]).1 is Some) ==> (json_entries(
            Ok(Some(list)),
        ) matches Ok(all) && all.len() == list.len() && forall|i: int|
            0 <= i < list.len() ==> #[trigger] all[i] == (list[i].0, encode_utf8(list[i].1->0))),
        forall|k: int|
            0 <= k < list.len() && (#[trigger] list[k]).1 is None && (forall|i: int|
                0 <= i < k ==> (#[trigger] list[i]).1 is Some) ==> json_entries(Ok(Some(list)))
                == Err::<Seq<Entry>, Seq<char>>(list[k].0 + ": JSON values must be strings"@),
        json_entries(Ok(None)) == Err::<Seq<Entry>, Seq<char>>("JSON keyset must be an object"@),
    decreases list.len(),
{
    if list.len() > 0 {
        let rest = list.drop_first();
        law_json(rest);
        if forall|i: int| 0 <= i < list.len() ==> (#[trigger] list[i]).1 is Some {
            assert(list[0].1 is Some);
            assert forall|i: int| 0 <= i < rest.len() implies (#[trigger] rest[i]).1 is Some by {
                assert(list[i + 1].1 is Some);
            }
            let all = object_entries(list)->Ok_0;
            let less = object_entries(rest)->Ok_0;
            assert(all =~= seq![(list[0].0, encode_utf8(list[0].1->0))] + less);
            assert forall|i: int| 0 <= i < list.len() implies #[trigger] all[i] == (
                list[i].0,
                encode_utf8(list[i].1->0),
            ) by {
                if i > 0 {
                    assert(all[i] == less[i - 1]);
                    assert(rest[i - 1] == list[i]);
                }
            }
        }
        assert forall|k: int|
            0 <= k < list.len() && (#[trigger] list[k]).1 is None && (forall|i: int|
                0 <= i < k ==> (#[trigger] list[i]).1 is Some) implies json_entries(Ok(Some(list)))
            == Err::<Seq<Entry>, Seq<char>>(list[k].0 + ": JSON values must be strings"@) by {
            if k > 0 {
                assert(list[0].1 is Some);
                assert(rest[k - 1] == list[k]);
                assert forall|i: int| 0 <= i < k - 1 implies (#[trigger] rest[i]).1 is Some by {
                    assert(list[i + 1].1 is Some);
                }
                assert(json_entries(Ok(Some(rest))) is Err);
            }
        }
    }
}

/// Entries are accepted exactly if there is one, and each has a valid name that no other
/// has and a value that is not empty; and they are accepted as they are.
pub proof fn law_accepted(list: Seq<Entry>)
    ensures
        keyset_of(Ok(list)) is Ok <==> list.len() > 0 && (forall|i: int|
            0 <= i < list.len() ==> is_name((#[trigger] list[i]).0) && list[i].1.len() > 0) && (
        forall|i: int, j: int|
            0 <= i < j < list.len() ==> (#[trigger] list[i]).0 != (#[trigger] list[j]).0),
        keyset_of(Ok(list)) matches Ok(all) ==> all == list,
{
    law_keyset_accepted(list);
}

/// What is wrong with the first entry that is wrong is told, whatever follows it: a name
/// that is none, a value that is empty, or a name that an earlier entry has.
pub proof fn law_first_wrong(good: Seq<Entry>, bad: Entry, rest: Seq<Entry>)
    requires
        good.len() > 0 ==> keyset_of(Ok(good)) is Ok,
    ensures
        !is_name(bad.0) ==> keyset_of(Ok(good.push(bad) + rest)) == Err::<Seq<Entry>, Seq<char>>(
            "invalid key name "@ + text::debug_text(bad.0)
                + " (use letters, digits, underscore)"@,
        ),
        is_name(bad.0) && bad.1.len() == 0 ==> keyset_of(Ok(good.push(bad) + rest)) == Err::<
            Seq<Entry>,
            Seq<char>,
        >(bad.0 + ": empty values are not supported by kernel user keys"@),
        is_name(bad.0) && bad.1.len() > 0 && (exists|i: int|
            0 <= i < good.len() && (#[trigger] good[i]).0 == bad.0) ==> keyset_of(
            Ok(good.push(bad) + rest),
        ) == Err::<Seq<Entry>, Seq<char>>("duplicate key "@ + bad.0),
        keyset_of(Ok(Seq::empty())) == Err::<Seq<Entry>, Seq<char>>("keyset is empty"@),
{
    let list = good.push(bad) + rest;
    let n = good.len() as int;
    law_keyset_accepted(good);
    assert forall|k: int| 0 <= k < n implies fault(list, k) is None by {
        assert(list[k] == good[k]);
        assert(is_name(good[k].0) && good[k].1.len() > 0);
        assert forall|j: int| 0 <= j < k implies (#[trigger] list[j]).0 != list[k].0 by {
            assert(list[j] == good[j]);
            assert(good[j].0 != good[k].0);
        }
    }
    lemma_faultless(list, 0, n);
    assert(list[n] == bad);
    if exists|i: int| 0 <= i < good.len() && (#[trigger] good[i]).0 == bad.0 {
        let i = choose|i: int| 0 <= i < good.len() && (#[trigger] good[i]).0 == bad.0;
        assert(list[i] == good[i]);
    }
}

/// Entries with which nothing is wrong are passed over.
proof fn lemma_faultless(list: Seq<Entry>, i: int, n: int)
    requires
        0 <= i <= n <= list.len(),
        forall|k: int| i <= k < n ==> fault(list, k) is None,
    ensures
        first_fault(list, i) == first_fault(list, n),
    decreases n - i,
{
    if i < n {
        lemma_faultless(list, i + 1, n);
    }
}

/// Entries are taken as they are, and a result is what was said exactly if it has the same
/// entries, or the same words.
pub proof fn law_entries(
    list: Vec<(String, Secret)>,
    e: String,
    said: Result<Seq<Entry>, Seq<char>>,
    i: int,
)
    ensures
        entries(list@).len() == list@.len(),
        0 <= i < list@.len() ==> entries(list@)[i] == (list@[i].0@, list@[i].1@),
        gives(Ok(list), said) <==> said == Ok::<Seq<Entry>, Seq<char>>(entries(list@)),
        gives(Err(e), said) <==> said == Err::<Seq<Entry>, Seq<char>>(e@),
{
}

/// What a reader of JSON reports is taken as it is, and an error of its is told.
pub proof fn law_document(list: Vec<(String, Option<String>)>, e: String, i: int)
    ensures
        document(Ok(Some(list))) == Ok::<Option<Seq<Field>>, Seq<char>>(Some(fields(list@))),
        document(Ok(None)) == Ok::<Option<Seq<Field>>, Seq<char>>(None),
        document(Err(e)) == Err::<Option<Seq<Field>>, Seq<char>>(e@),
        fields(list@).len() == list@.len(),
        0 <= i < list@.len() ==> fields(list@)[i].0 == list@[i].0@ && match list@[i].1 {
            Some(t) => fields(list@)[i].1 == Some(t@),
            None => fields(list@)[i].1 is None,
        },
        json_entries(Err(e@)) == Err::<Seq<Entry>, Seq<char>>("bad JSON: "@ + e@),
{
}

} // verus!
