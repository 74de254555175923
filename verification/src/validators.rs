//! Validators and their names.
use vstd::prelude::*;

use vstd::hash_map::StringHashMap;

use crate::blocks::{bytes_in, read_reply, reply_of};
use crate::json::{
    array_in, as_array, as_str, at_key, get, items, parsed_bytes, seen, str_in, Json, JsonView,
};
use crate::text::{lowercase, take_chars, to_lower};

verus! {

/// The names of validators by address, in lower case.
pub struct Names {
    pub by_address: StringHashMap<String>,
}

impl View for Names {
    type V = Map<Seq<char>, Seq<char>>;

    open spec fn view(&self) -> Map<Seq<char>, Seq<char>> {
        self.by_address@.map_values(|s: String| s@)
    }
}

/// The names after the address `key`, in lower case, was given `name`: the first name that an
/// address gets is kept.
pub open spec fn kept(m: Map<Seq<char>, Seq<char>>, key: Seq<char>, name: Seq<char>) -> Map<
    Seq<char>,
    Seq<char>,
> {
    if m.contains_key(key) {
        m
    } else {
        m.insert(key, name)
    }
}

impl Names {
    /// Gives the address `key`, in lower case, a name where it has none.
    pub fn keep(&mut self, key: String, name: &str)
        ensures
            final(self)@ == kept(old(self)@, key@, name@),
    {
        if !self.by_address.contains_key(key.as_str()) {
            let ghost k = key@;
            self.by_address.insert(key, name.to_owned());
            assert(self@ =~= old(self)@.insert(k, name@));
        }
    }
}

/// The names after an address has been noted under `name`, where there is an address and it
/// has no name yet.
pub open spec fn noted(
    m: Map<Seq<char>, Seq<char>>,
    address: Option<Seq<char>>,
    name: Seq<char>,
) -> Map<Seq<char>, Seq<char>> {
    match address {
        Some(a) => kept(m, lowercase(a), name),
        None => m,
    }
}

/// The name of a validator.
pub open spec fn validator_name(v: JsonView) -> Seq<char> {
    match str_in(at_key(Some(v), "name"@)) {
        Some(s) => s,
        None => "?"@,
    }
}

/// The names after a validator has been noted: under its signer key, and under its own
/// address.
pub open spec fn with_validator(m: Map<Seq<char>, Seq<char>>, v: JsonView) -> Map<
    Seq<char>,
    Seq<char>,
> {
    let by_signer = noted(m, str_in(at_key(Some(v), "signer"@)), validator_name(v));
    noted(by_signer, str_in(at_key(Some(v), "validator"@)), validator_name(v))
}

/// The names that a list of validators gives: who comes first has an address for good.
pub open spec fn names_of(vs: Seq<JsonView>) -> Map<Seq<char>, Seq<char>>
    decreases vs.len(),
{
    if vs.len() == 0 {
        Map::empty()
    } else {
        with_validator(names_of(vs.drop_last()), vs.last())
    }
}

/// The names that the reply to a request for the validators gives: none where it is no list.
pub open spec fn names_in(reply: Option<JsonView>) -> Map<Seq<char>, Seq<char>> {
    match array_in(reply) {
        Some(vs) => names_of(vs),
        None => Map::empty(),
    }
}

fn note(names: &mut Names, address: Option<&str>, name: &str)
    ensures
        final(names)@ == noted(
            old(names)@,
            match address {
                Some(a) => Some(a@),
                None => None,
            },
            name@,
        ),
{
    if let Some(a) = address {
        names.keep(to_lower(a), name);
    }
}

/// Reads the names of the validators. A block names the signer key of its proposer, which
/// for most validators differs from the validator's address; both are noted, signer first.
pub fn validator_names(reply: Option<&Json>) -> (r: Names)
    ensures
        r@ == names_in(seen(reply)),
{
    let mut names = Names { by_address: StringHashMap::new() };
    assert(names@ =~= Map::<Seq<char>, Seq<char>>::empty());
    if let Some(vs) = as_array(reply) {
        let ghost views = items(vs@);
        assert(views.take(0) =~= Seq::empty());
        for i in 0..vs.len()
            invariant
                views == items(vs@),
                names@ == names_of(views.take(i as int)),
        {
            assert(views.take(i + 1).drop_last() =~= views.take(i as int));
            assert(views.take(i + 1).last() == vs@[i as int]@);
            let v = Some(&vs[i]);
            let name = match as_str(get(v, "name")) {
                Some(s) => s,
                None => "?",
            };
            note(&mut names, as_str(get(v, "signer")), name);
            note(&mut names, as_str(get(v, "validator")), name);
        }
        assert(views.take(vs@.len() as int) =~= views);
    }
    names
}

/// Reads the names of the validators from the bytes of the reply.
pub fn read_validators(reply: &Option<Vec<u8>>) -> (r: Names)
    ensures
        r@ == names_in(reply_of(bytes_in(*reply))),
{
    let j = read_reply(reply);
    validator_names(j.as_ref())
}

/// How an address is shown: by its name, or by its first ten characters where it has none.
pub open spec fn label_of(names: Map<Seq<char>, Seq<char>>, address: Seq<char>) -> Seq<char> {
    if names.contains_key(address) {
        names[address]
    } else {
        address.take(if address.len() < 10 { address.len() as int } else { 10 })
    }
}

/// How an address is shown.
pub fn label(names: &Names, address: &str) -> (r: String)
    ensures
        r@ == label_of(names@, address@),
{
    match names.by_address.get(address) {
        Some(s) => s.clone(),
        None => take_chars(address, 10),
    }
}

// ---- laws ----

/// Noting further validators leaves every name as it is.
pub proof fn law_names_are_kept(vs: Seq<JsonView>, n: int, address: Seq<char>)
    requires
        0 <= n <= vs.len(),
        names_of(vs.take(n)).contains_key(address),
    ensures
        names_of(vs).contains_key(address),
        names_of(vs)[address] == names_of(vs.take(n))[address],
    decreases vs.len(),
{
    if n < vs.len() {
        assert(vs.drop_last().take(n) =~= vs.take(n));
        law_names_are_kept(vs.drop_last(), n, address);
    } else {
        assert(vs.take(n) =~= vs);
    }
}

/// A proposer is shown by its validator's name: every signer key in the list has a name,
/// and it is its validator's own unless the address was noted before.
pub proof fn law_signers_have_names(vs: Seq<JsonView>, i: int, signer: Seq<char>)
    requires
        0 <= i < vs.len(),
        str_in(at_key(Some(vs[i]), "signer"@)) == Some(signer),
    ensures
        names_of(vs).contains_key(lowercase(signer)),
        !names_of(vs.take(i)).contains_key(lowercase(signer)) ==> label_of(
            names_of(vs),
            lowercase(signer),
        ) == validator_name(vs[i]),
{
    let before = vs.take(i);
    let upto = vs.take(i + 1);
    assert(upto.drop_last() =~= before);
    assert(upto.last() == vs[i]);
    law_names_are_kept(vs, i + 1, lowercase(signer));
}

/// Whether a validator goes by an address, in lower case: as its signer key or as its own.
pub open spec fn goes_by(v: JsonView, address: Seq<char>) -> bool {
    ||| (str_in(at_key(Some(v), "signer"@)) matches Some(s) && lowercase(s) == address)
    ||| (str_in(at_key(Some(v), "validator"@)) matches Some(s) && lowercase(s) == address)
}

proof fn lemma_names_of(vs: Seq<JsonView>, address: Seq<char>, i: int)
    requires
        0 <= i <= vs.len(),
        forall|j: int| 0 <= j < i ==> !goes_by(#[trigger] vs[j], address),
        i == vs.len() || goes_by(vs[i], address),
    ensures
        names_of(vs).contains_key(address) <==> i < vs.len(),
        i < vs.len() ==> names_of(vs)[address] == (match str_in(at_key(Some(vs[i]), "name"@)) {
            Some(s) => s,
            None => "?"@,
        }),
    decreases vs.len(),
{
    if vs.len() > 0 {
        let rest = vs.drop_last();
        assert forall|j: int| 0 <= j < i && j < rest.len() implies !goes_by(
            #[trigger] rest[j],
            address,
        ) by {
            assert(!goes_by(vs[j], address));
        }
        if i < vs.len() - 1 {
            lemma_names_of(rest, address, i);
        } else {
            lemma_names_of(rest, address, rest.len() as int);
            if i == vs.len() {
                assert(!goes_by(vs[vs.len() - 1], address));
            }
        }
    }
}

/// An address has the name of the first validator in the list that goes by it, as its signer key
/// or as its own address, a question mark where that one has no name; and no name where none
/// does.
pub proof fn law_addresses_have_their_validators_name(
    reply: Option<&Json>,
    r: Names,
    vs: Seq<JsonView>,
    address: Seq<char>,
    i: int,
)
    requires
        call_ensures(validator_names, (reply,), r),
        array_in(seen(reply)) == Some(vs),
        0 <= i <= vs.len(),
        forall|j: int| 0 <= j < i ==> !goes_by(#[trigger] vs[j], address),
        i == vs.len() || goes_by(vs[i], address),
    ensures
        r@.contains_key(address) <==> i < vs.len(),
        i < vs.len() ==> r@[address] == (match str_in(at_key(Some(vs[i]), "name"@)) {
            Some(s) => s,
            None => seq!['?'],
        }),
{
    lemma_names_of(vs, address, i);
    reveal_strlit("?");
    assert("?"@ =~= seq!['?']);
}

/// The names are read from the bytes of a reply as from the JSON that they are; there are none
/// where that is no list.
pub proof fn law_names_are_read_from_their_bytes(
    bytes: Vec<u8>,
    r: Names,
    vs: Seq<JsonView>,
    address: Seq<char>,
    i: int,
)
    requires
        call_ensures(read_validators, (&Some(bytes),), r),
        0 <= i <= vs.len(),
        forall|j: int| 0 <= j < i ==> !goes_by(#[trigger] vs[j], address),
        i == vs.len() || goes_by(vs[i], address),
    ensures
        array_in(parsed_bytes(bytes@)) is None ==> !r@.contains_key(address),
        array_in(parsed_bytes(bytes@)) == Some(vs) ==> (r@.contains_key(address) <==> i < vs.len()),
        array_in(parsed_bytes(bytes@)) == Some(vs) && i < vs.len() && str_in(
            at_key(Some(vs[i]), "name"@),
        ) is Some ==> Some(r@[address]) == str_in(at_key(Some(vs[i]), "name"@)),
{
    lemma_names_of(vs, address, i);
}

/// An address is shown by its name; one without a name by its first ten characters, or by all of
/// them where it has fewer.
pub proof fn law_addresses_are_shown_by_name(names: Names, address: &str, r: String)
    requires
        call_ensures(label, (&names, address), r),
    ensures
        names@.contains_key(address@) ==> r@ == names@[address@],
        !names@.contains_key(address@) && address@.len() > 10 ==> r@ == address@.take(10),
        !names@.contains_key(address@) && address@.len() <= 10 ==> r@ == address@,
{
    assert(address@.take(address@.len() as int) =~= address@);
}

/// The first name that an address is given is kept, and other addresses keep theirs.
pub proof fn law_the_first_name_is_kept(
    names: &mut Names,
    key: String,
    name: &str,
    other: Seq<char>,
)
    requires
        call_ensures(Names::keep, (names, key, name), ()),
    ensures
        final(names)@.contains_key(key@),
        old(names)@.contains_key(key@) ==> final(names)@ == old(names)@,
        !old(names)@.contains_key(key@) ==> final(names)@[key@] == name@,
        other != key@ ==> (final(names)@.contains_key(other) <==> old(names)@.contains_key(other))
            && (old(names)@.contains_key(other) ==> final(names)@[other] == old(names)@[other]),
{
}

} // verus!
