//! A model of the JSON values the client protocol uses, and the reading of
//! a client action out of one.  A transport layer parses raw JSON text into
//! this model at the boundary and hands it in.
use crate::model::Stone;
use crate::session::Message;
use vstd::prelude::*;

verus! {

/// A JSON value as the client protocol needs it.  A number is kept when it
/// is a non-negative integer that fits 64 bits and is `NumOther` otherwise;
/// an object is its fields in order.
pub enum JsonVal {
    Null,
    Bool(bool),
    Num(u64),
    NumOther,
    Str(String),
    Arr(Vec<JsonVal>),
    Obj(Vec<(String, JsonVal)>),
}

/// The value of the first field named `key`.
pub open spec fn lookup(fields: Seq<(String, JsonVal)>, key: Seq<char>) -> Option<JsonVal>
    decreases fields.len(),
{
    if fields.len() == 0 {
        None
    } else if fields[0].0@ == key {
        Some(fields[0].1)
    } else {
        lookup(fields.drop_first(), key)
    }
}

pub open spec fn num_u64(v: JsonVal) -> u64 {
    match v {
        JsonVal::Num(x) => x,
        _ => 0,
    }
}

/// Every entry is a number that fits a cell index.
pub open spec fn all_cell_nums(items: Seq<JsonVal>) -> bool {
    forall|i: int|
        0 <= i < items.len() ==> (#[trigger] items[i]) is Num && num_u64(items[i]) <= usize::MAX
}

/// The client value holds one of the protocol's actions with usable
/// arguments.
pub open spec fn has_message(v: JsonVal) -> bool {
    match v {
        JsonVal::Obj(fields) => match lookup(fields@, "action"@) {
            Some(JsonVal::Str(a)) => if a@ == "handicap"@ {
                match lookup(fields@, "positions"@) {
                    Some(JsonVal::Arr(items)) => all_cell_nums(items@),
                    _ => false,
                }
            } else if a@ == "play"@ {
                match lookup(fields@, "position"@) {
                    Some(JsonVal::Num(p)) => p <= usize::MAX,
                    _ => false,
                }
            } else {
                a@ == "pass"@ || a@ == "resign"@
            },
            _ => false,
        },
        _ => false,
    }
}

/// The message `m` is the action the client value denotes, played as
/// `stone`.
pub open spec fn denotes(stone: Stone, v: JsonVal, m: Message) -> bool {
    match v {
        JsonVal::Obj(fields) => match lookup(fields@, "action"@) {
            Some(JsonVal::Str(a)) => if a@ == "handicap"@ {
                match lookup(fields@, "positions"@) {
                    Some(JsonVal::Arr(items)) => m matches Message::Handicap(s, ps) && s == stone
                        && ps@.len() == items@.len() && (forall|i: int|
                        0 <= i < items@.len() ==> #[trigger] ps@[i] == num_u64(items@[i]) as usize),
                    _ => false,
                }
            } else if a@ == "play"@ {
                match lookup(fields@, "position"@) {
                    Some(JsonVal::Num(p)) => m == Message::Play(stone, p as usize),
                    _ => false,
                }
            } else if a@ == "pass"@ {
                m == Message::Pass(stone)
            } else if a@ == "resign"@ {
                m == Message::Resign(stone)
            } else {
                false
            },
            _ => false,
        },
        _ => false,
    }
}

/// Whether two texts hold the same characters.
#[verifier::loop_isolation(false)]
pub fn str_eq(a: &str, b: &str) -> (r: bool)
    ensures
        r == (a@ == b@),
{
    let la = a.unicode_len();
    let lb = b.unicode_len();
    if la != lb {
        return false;
    }
    let mut i: usize = 0;
    while i < la
        invariant
            i <= la,
            la == a@.len(),
            la == b@.len(),
            forall|j: int| 0 <= j < i ==> a@[j] == b@[j],
        decreases la - i,
    {
        if a.get_char(i) != b.get_char(i) {
            return false;
        }
        i += 1;
    }
    proof {
        assert(a@ =~= b@);
    }
    true
}

/// The first field named `key`, if the object has one.
#[verifier::loop_isolation(false)]
fn get<'a>(fields: &'a Vec<(String, JsonVal)>, key: &str) -> (r: Option<&'a JsonVal>)
    ensures
        r is Some <==> lookup(fields@, key@) is Some,
        r matches Some(v) ==> lookup(fields@, key@) == Some(*v),
{
    let mut i: usize = 0;
    proof {
        assert(fields@.skip(0) =~= fields@);
    }
    while i < fields.len()
        invariant
            i <= fields@.len(),
            lookup(fields@, key@) == lookup(fields@.skip(i as int), key@),
        decreases fields@.len() - i,
    {
        let hit = str_eq(fields[i].0.as_str(), key);
        proof {
            assert(fields@.skip(i as int)[0] == fields@[i as int]);
            assert(fields@.skip(i as int).drop_first() =~= fields@.skip(i + 1));
        }
        if hit {
            return Some(&fields[i].1);
        }
        i += 1;
    }
    proof {
        assert(fields@.skip(fields@.len() as int) =~= Seq::<(String, JsonVal)>::empty());
    }
    None
}

/// Reads a client action out of a JSON value for the player holding
/// `stone`: a handicap placement, a play, a pass or a resignation, or
/// nothing when the value has no such shape.
#[verifier::loop_isolation(false)]
pub fn parse_message(stone: Stone, value: &JsonVal) -> (r: Option<Message>)
    ensures
        r is Some <==> has_message(*value),
        r matches Some(m) ==> denotes(stone, *value, m),
{
    match value {
        JsonVal::Obj(fields) => {
            let action = get(fields, "action");
            match action {
                Some(JsonVal::Str(a)) => {
                    if str_eq(a.as_str(), "handicap") {
                        let items_field = get(fields, "positions");
                        match items_field {
                            Some(JsonVal::Arr(items)) => {
                                let mut positions = Vec::<usize>::new();
                                let mut i: usize = 0;
                                while i < items.len()
                                    invariant
                                        i <= items@.len(),
                                        positions@.len() == i,
                                        forall|j: int|
                                            0 <= j < i ==> (#[trigger] items@[j]) is Num
                                                && num_u64(items@[j]) <= usize::MAX,
                                        forall|j: int|
                                            0 <= j < i ==> #[trigger] positions@[j] == num_u64(
                                                items@[j],
                                            ) as usize,
                                    decreases items@.len() - i,
                                {
                                    match &items[i] {
                                        JsonVal::Num(p) => {
                                            if *p <= usize::MAX as u64 {
                                                positions.push(*p as usize);
                                            } else {
                                                return None;
                                            }
                                        },
                                        _ => {
                                            return None;
                                        },
                                    }
                                    i += 1;
                                }
                                Some(Message::Handicap(stone, positions))
                            },
                            _ => None,
                        }
                    } else if str_eq(a.as_str(), "play") {
                        let position_field = get(fields, "position");
                        match position_field {
                            Some(JsonVal::Num(p)) => {
                                if *p <= usize::MAX as u64 {
                                    Some(Message::Play(stone, *p as usize))
                                } else {
                                    None
                                }
                            },
                            _ => None,
                        }
                    } else if str_eq(a.as_str(), "pass") {
                        Some(Message::Pass(stone))
                    } else if str_eq(a.as_str(), "resign") {
                        Some(Message::Resign(stone))
                    } else {
                        None
                    }
                },
                _ => None,
            }
        },
        _ => None,
    }
}

} // verus!
