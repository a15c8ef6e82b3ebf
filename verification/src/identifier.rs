//! Identifiers for hosted objects: either a name or a numeric id.  On the
//! wire an identifier is an object holding a `name` or an `id` field; the
//! decoding rules mirror a field-presence reader, with `name` taking
//! precedence when both are given.  A numeric id beyond the signed 64-bit
//! integer range travels as a plain decimal number, so every id survives
//! the wire unchanged.

use vstd::prelude::*;

use crate::json::{dec_digits, digits_val, is_digit, Json, JsonV};

verus! {

/// A hosted object's identifier.
#[derive(Debug, Hash)]
pub enum Identifier {
    Name(String),
    ID(usize),
}

/// Mathematical view of an [`Identifier`].
#[verifier::ext_equal]
pub enum IdentifierV {
    Name(Seq<char>),
    ID(usize),
}

impl View for Identifier {
    type V = IdentifierV;

    open spec fn view(&self) -> IdentifierV {
        match self {
            Identifier::Name(s) => IdentifierV::Name(s@),
            Identifier::ID(n) => IdentifierV::ID(*n),
        }
    }
}

impl Clone for Identifier {
    fn clone(&self) -> (r: Self)
        ensures
            r@ == self@,
    {
        match self {
            Identifier::Name(s) => Identifier::Name(s.clone()),
            Identifier::ID(n) => Identifier::ID(*n),
        }
    }
}

impl PartialEq for Identifier {
    fn eq(&self, other: &Self) -> (r: bool) {
        match (self, other) {
            (Identifier::Name(a), Identifier::Name(b)) => crate::json::str_eq(
                a.as_str(),
                b.as_str(),
            ),
            (Identifier::ID(a), Identifier::ID(b)) => *a == *b,
            _ => false,
        }
    }
}

impl vstd::std_specs::cmp::PartialEqSpecImpl for Identifier {
    open spec fn obeys_eq_spec() -> bool {
        true
    }

    open spec fn eq_spec(&self, other: &Self) -> bool {
        self@ == other@
    }
}

impl From<usize> for Identifier {
    fn from(id: usize) -> (r: Self)
        ensures
            r@ == IdentifierV::ID(id),
    {
        Identifier::ID(id)
    }
}

impl vstd::std_specs::convert::FromSpecImpl<usize> for Identifier {
    open spec fn obeys_from_spec() -> bool {
        true
    }

    open spec fn from_spec(id: usize) -> Self {
        Identifier::ID(id)
    }
}

impl From<String> for Identifier {
    fn from(name: String) -> (r: Self)
        ensures
            r@ == IdentifierV::Name(name@),
    {
        Identifier::Name(name)
    }
}

impl vstd::std_specs::convert::FromSpecImpl<String> for Identifier {
    open spec fn obeys_from_spec() -> bool {
        true
    }

    open spec fn from_spec(name: String) -> Self {
        Identifier::Name(name)
    }
}

impl From<&str> for Identifier {
    fn from(name: &str) -> (r: Self)
        ensures
            r@ == IdentifierV::Name(name@),
    {
        Identifier::Name(String::from_str(name))
    }
}

impl vstd::std_specs::convert::FromSpecImpl<&str> for Identifier {
    /// A string slice names no one `String` value in the model, so `from`
    /// is pinned down by its own `ensures` above, not through this spec.
    open spec fn obeys_from_spec() -> bool {
        false
    }

    open spec fn from_spec(name: &str) -> Self {
        choose|i: Identifier| i@ == IdentifierV::Name(name@)
    }
}

/// Why a JSON value is not an identifier.
#[derive(Clone, Copy, Debug, PartialEq, Eq, Structural)]
pub enum IdentifierError {
    /// Not an object.
    Shape,
    /// The `id` or `name` field is given twice.
    DuplicateField,
    /// A field other than `id` and `name` is given.
    UnknownField,
    /// Neither `id` nor `name` is given.
    MissingField,
    /// A field is given with the wrong type of value.
    FieldType,
}

pub open spec fn identifier_id_key() -> Seq<char> {
    seq!['i', 'd']
}

pub open spec fn identifier_name_key() -> Seq<char> {
    seq!['n', 'a', 'm', 'e']
}

/// A plain run of decimal digits: the wire form of a numeric id beyond the
/// signed 64-bit integer range.
pub open spec fn is_digit_token(t: Seq<char>) -> bool {
    t.len() > 0 && forall|k: int| 0 <= k < t.len() ==> is_digit(#[trigger] t[k])
}

/// How an identifier reads from an object's members, scanned in order:
/// at most one `id` and one `name` field, nothing else; a `name` wins over
/// an `id`; one of the two must be there.  A numeric id may arrive as a
/// signed integer or as a plain decimal token, as long as it fits `usize`.
pub open spec fn identifier_of_members(
    m: Seq<(Seq<char>, JsonV)>,
    id_seen: Option<usize>,
    name_seen: Option<Seq<char>>,
) -> Result<IdentifierV, IdentifierError>
    decreases m.len(),
{
    if m.len() == 0 {
        match name_seen {
            Option::Some(n) => Result::Ok(IdentifierV::Name(n)),
            Option::None => match id_seen {
                Option::Some(i) => Result::Ok(IdentifierV::ID(i)),
                Option::None => Result::Err(IdentifierError::MissingField),
            },
        }
    } else {
        let (key, val) = m.first();
        if key == identifier_id_key() {
            if id_seen is Some {
                Result::Err(IdentifierError::DuplicateField)
            } else {
                match val {
                    JsonV::Int(n) => if 0 <= n as int && n as int <= usize::MAX as int {
                        identifier_of_members(m.drop_first(), Option::Some(n as usize), name_seen)
                    } else {
                        Result::Err(IdentifierError::FieldType)
                    },
                    JsonV::Num(t) => if is_digit_token(t) && digits_val(t, 0, t.len() as int)
                        <= usize::MAX as int {
                        identifier_of_members(
                            m.drop_first(),
                            Option::Some(digits_val(t, 0, t.len() as int) as usize),
                            name_seen,
                        )
                    } else {
                        Result::Err(IdentifierError::FieldType)
                    },
                    _ => Result::Err(IdentifierError::FieldType),
                }
            }
        } else if key == identifier_name_key() {
            if name_seen is Some {
                Result::Err(IdentifierError::DuplicateField)
            } else {
                match val {
                    JsonV::Str(s) => identifier_of_members(
                        m.drop_first(),
                        id_seen,
                        Option::Some(s),
                    ),
                    _ => Result::Err(IdentifierError::FieldType),
                }
            }
        } else {
            Result::Err(IdentifierError::UnknownField)
        }
    }
}

pub open spec fn identifier_of_json(v: JsonV) -> Result<IdentifierV, IdentifierError> {
    match v {
        JsonV::Obj(m) => identifier_of_members(m, Option::None, Option::None),
        _ => Result::Err(IdentifierError::Shape),
    }
}

impl Identifier {
    /// The JSON form of the identifier: an object with a single `name` or
    /// `id` field.
    pub fn to_json(&self) -> (r: Json)
        ensures
            r@ == identifier_json(self@),
    {
        let mut m: Vec<(String, Json)> = Vec::new();
        match self {
            Identifier::Name(s) => {
                let key = String::from_str("name");
                proof {
                    reveal_strlit("name");
                    assert(key@ =~= identifier_name_key());
                }
                m.push((key, Json::Str(s.clone())));
            },
            Identifier::ID(n) => {
                let key = String::from_str("id");
                proof {
                    reveal_strlit("id");
                    assert(key@ =~= identifier_id_key());
                }
                if (*n as u64) <= (i64::MAX as u64) {
                    m.push((key, Json::Int(*n as i64)));
                } else {
                    let mut digits: Vec<char> = Vec::new();
                    crate::json::push_dec_digits(*n as u64, &mut digits);
                    proof {
                        assert((*n as u64) as nat == *n as nat);
                    }
                    m.push((key, Json::Num(crate::json::chars_to_string(&digits))));
                }
            },
        }
        let r = Json::Obj(m);
        proof {
            broadcast use crate::json::views_of_members_len, crate::json::views_of_members_index;

            assert(identifier_json(self@) matches JsonV::Obj(ms) && crate::json::views_of_members(
                r->Obj_0@,
            ) =~= ms);
        }
        r
    }

    /// Reads an identifier back from a JSON value, field by field.
    #[verifier::loop_isolation(false)]
    pub fn from_json(v: &Json) -> (r: Result<Identifier, IdentifierError>)
        ensures
            match (identifier_of_json(v@), r) {
                (Result::Ok(iv), Result::Ok(ie)) => ie@ == iv,
                (Result::Err(a), Result::Err(b)) => a == b,
                _ => false,
            },
    {
        proof {
            reveal_strlit("id");
            reveal_strlit("name");
            assert("id"@ =~= identifier_id_key());
            assert("name"@ =~= identifier_name_key());
        }
        let m = match v {
            Json::Obj(m) => m,
            _ => {
                return Err(IdentifierError::Shape);
            },
        };
        let ghost vm = crate::json::views_of_members(m@);
        proof {
            broadcast use crate::json::views_of_members_len, crate::json::views_of_members_index;

            assert(vm.skip(0) =~= vm);
        }
        let mut id_seen: Option<usize> = None;
        let mut name_seen: Option<String> = None;
        let mut k: usize = 0;
        while k < m.len()
            invariant
                k <= m@.len(),
                identifier_of_members(vm, Option::None, Option::None) == identifier_of_members(
                    vm.skip(k as int),
                    id_seen,
                    match name_seen {
                        Option::None => Option::<Seq<char>>::None,
                        Option::Some(s) => Option::Some(s@),
                    },
                ),
            decreases m@.len() - k,
        {
            proof {
                broadcast use
                    crate::json::views_of_members_len,
                    crate::json::views_of_members_index;

                assert(vm.skip(k as int).first() == vm[k as int]);
                assert(vm.skip(k as int).drop_first() =~= vm.skip(k + 1 as int));
            }
            let entry = &m[k];
            if crate::json::str_eq(entry.0.as_str(), "id") {
                if id_seen.is_some() {
                    return Err(IdentifierError::DuplicateField);
                }
                match &entry.1 {
                    Json::Int(n) => {
                        if 0 <= *n && (*n as u64) <= (usize::MAX as u64) {
                            id_seen = Some(*n as usize);
                        } else {
                            return Err(IdentifierError::FieldType);
                        }
                    },
                    Json::Num(t) => {
                        let cs = crate::json::str_to_chars(t.as_str());
                        let run = crate::json::digits_end_x(&cs, 0);
                        proof {
                            crate::json::digits_end_digits(t@, 0);
                            crate::json::digits_end_stop(t@, 0);
                        }
                        if !(cs.len() > 0 && run == cs.len()) {
                            return Err(IdentifierError::FieldType);
                        }
                        match crate::json::digits_to_u64(&cs, 0, run) {
                            Some(val) => {
                                if val <= (usize::MAX as u64) {
                                    id_seen = Some(val as usize);
                                } else {
                                    return Err(IdentifierError::FieldType);
                                }
                            },
                            None => {
                                return Err(IdentifierError::FieldType);
                            },
                        }
                    },
                    _ => {
                        return Err(IdentifierError::FieldType);
                    },
                }
            } else if crate::json::str_eq(entry.0.as_str(), "name") {
                if name_seen.is_some() {
                    return Err(IdentifierError::DuplicateField);
                }
                match &entry.1 {
                    Json::Str(s) => {
                        name_seen = Some(s.clone());
                    },
                    _ => {
                        return Err(IdentifierError::FieldType);
                    },
                }
            } else {
                return Err(IdentifierError::UnknownField);
            }
            k += 1;
        }
        proof {
            assert(vm.skip(vm.len() as int) =~= Seq::<(Seq<char>, JsonV)>::empty());
        }
        match name_seen {
            Some(n) => Ok(Identifier::Name(n)),
            None => match id_seen {
                Some(i) => Ok(Identifier::ID(i)),
                None => Err(IdentifierError::MissingField),
            },
        }
    }
}

/// The JSON form of an identifier.
pub open spec fn identifier_json(i: IdentifierV) -> JsonV {
    match i {
        IdentifierV::Name(s) => JsonV::Obj(seq![(identifier_name_key(), JsonV::Str(s))]),
        IdentifierV::ID(n) => JsonV::Obj(seq![(identifier_id_key(), id_number_json(n))]),
    }
}

/// A numeric id on the wire: the signed integer form while it fits, the
/// plain decimal token beyond it, so that every `usize` id survives.
pub open spec fn id_number_json(n: usize) -> JsonV {
    if n as int <= i64::MAX as int {
        JsonV::Int(n as i64)
    } else {
        JsonV::Num(dec_digits(n as nat))
    }
}

/// Round trip: reading back the JSON form of an identifier gives exactly
/// that identifier, for every name and every numeric id.
pub proof fn lemma_identifier_round_trip(i: IdentifierV)
    ensures
        identifier_of_json(identifier_json(i)) == Result::<IdentifierV, IdentifierError>::Ok(i),
{
    reveal_with_fuel(identifier_of_members, 3);
    match i {
        IdentifierV::Name(s) => {
            let m = seq![(identifier_name_key(), JsonV::Str(s))];
            assert(m.first() == (identifier_name_key(), JsonV::Str(s)));
            assert(m.drop_first() =~= Seq::<(Seq<char>, JsonV)>::empty());
            assert(identifier_name_key() != identifier_id_key()) by {
                assert(identifier_name_key().len() == 4);
                assert(identifier_id_key().len() == 2);
            }
            assert(identifier_of_json(identifier_json(i)) == Result::<
                IdentifierV,
                IdentifierError,
            >::Ok(i));
        },
        IdentifierV::ID(n) => {
            if n as int <= i64::MAX as int {
                let m = seq![(identifier_id_key(), JsonV::Int(n as i64))];
                assert(m.first() == (identifier_id_key(), JsonV::Int(n as i64)));
                assert(m.drop_first() =~= Seq::<(Seq<char>, JsonV)>::empty());
                assert(0 <= (n as i64) as int && (n as i64) as int <= usize::MAX as int);
                assert(((n as i64) as usize) == n);
                assert(identifier_of_members(m, Option::None, Option::None)
                    == identifier_of_members(
                    m.drop_first(),
                    Option::Some(n),
                    Option::<Seq<char>>::None,
                ));
            } else {
                let t = dec_digits(n as nat);
                let m = seq![(identifier_id_key(), JsonV::Num(t))];
                assert(m.first() == (identifier_id_key(), JsonV::Num(t)));
                assert(m.drop_first() =~= Seq::<(Seq<char>, JsonV)>::empty());
                crate::json::dec_digits_props(n as nat);
                assert(is_digit_token(t));
                assert forall|k: int| 0 <= k < t.len() implies t[0 + k] == #[trigger] dec_digits(
                    n as nat,
                )[k] by {}
                crate::json::digits_val_of_dec(t, 0, n as nat);
                assert(digits_val(t, 0, t.len() as int) == n as int);
                assert((digits_val(t, 0, t.len() as int) as usize) == n);
                assert(identifier_of_members(m, Option::None, Option::None)
                    == identifier_of_members(
                    m.drop_first(),
                    Option::Some(n),
                    Option::<Seq<char>>::None,
                ));
            }
            assert(identifier_of_json(identifier_json(i)) == Result::<
                IdentifierV,
                IdentifierError,
            >::Ok(i));
        },
    }
}

} // verus!
