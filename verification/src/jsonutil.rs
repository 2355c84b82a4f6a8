//! Small helpers over payload values, and the plain data-level
//! operations on a single sidecar payload.

use vstd::prelude::*;
use crate::types::{OperationType, SidecarError};
use crate::value::{JsonValue, Val, val_of, obj_get, obj_set, members_of, obj_insert,
    lemma_members_of_index, lemma_obj_index_of, lemma_obj_index_of_witness,
    lemma_obj_set_get_same, lemma_obj_set_get_other, obj_index_of, obj_find, deep_clone};
use crate::jsontext::{ser_val, parse_text, to_json_bytes, from_json_bytes, confirm_val_wf,
    pretty_val, to_pretty_bytes};

verus! {

/// What the text merge leaves under `sidecar_info`: an object block (or
/// a fresh one) carries the operation's token as its last operation; a
/// non-object block is kept untouched.
pub open spec fn ops_block_tokened(prev: Option<Val>, token: Seq<char>, blk: Val) -> bool {
    match prev {
        Some(p) => if p is Obj {
            blk matches Val::Obj(bm) && obj_get(bm, "last_operation"@) == Some(Val::Str(token))
        } else {
            blk == p
        },
        None => blk matches Val::Obj(bm) && obj_get(bm, "last_operation"@) == Some(Val::Str(
            token)),
    }
}

/// Deep merge of two values, the overlay taking precedence: two objects
/// merge member by member, anything else is replaced by the overlay.
pub open spec fn merge_spec(base: Val, overlay: Val) -> Val
    decreases overlay, 1int,
    via merge_spec_dec
{
    match overlay {
        Val::Obj(oms) => match base {
            Val::Obj(bms) => Val::Obj(merge_members(bms, oms)),
            _ => overlay,
        },
        _ => overlay,
    }
}

/// Folds an overlay's members into a base member list, left to right:
/// each key's value merges with the base's (or with null when absent).
pub open spec fn merge_members(bms: Seq<(Seq<char>, Val)>, oms: Seq<(Seq<char>, Val)>) -> Seq<
    (Seq<char>, Val),
>
    decreases oms, 2int,
    via merge_members_dec
{
    if oms.len() == 0 {
        bms
    } else {
        let under = match obj_get(bms, oms[0].0) {
            Some(b0) => b0,
            None => Val::Null,
        };
        merge_members(obj_set(bms, oms[0].0, merge_spec(under, oms[0].1)), oms.drop_first())
    }
}

#[via_fn]
proof fn merge_spec_dec(base: Val, overlay: Val) {
}

#[via_fn]
proof fn merge_members_dec(bms: Seq<(Seq<char>, Val)>, oms: Seq<(Seq<char>, Val)>) {
    broadcast use vstd::seq::axiom_seq_index_decreases;
    broadcast use vstd::seq::axiom_seq_subrange_decreases;

}

/// Value helpers shared by the engine's callers.
pub struct JsonUtils;

impl JsonUtils {
    /// A sidecar payload must be an object at the top level.
    pub fn validate_sidecar_structure(value: &JsonValue) -> (r: Result<(), SidecarError>)
        ensures
            r is Ok <==> val_of(value) is Obj,
    {
        if value.is_object() {
            Ok(())
        } else {
            Err(SidecarError::ValidationFailed(copy_str(
                "Invalid JSON structure: expected object")))
        }
    }

    /// The `metadata` member, when one exists.
    pub fn extract_metadata<'a>(value: &'a JsonValue) -> (r: Option<&'a JsonValue>)
        ensures
            match val_of(value) {
                Val::Obj(ms) => match r {
                    Some(w) => obj_get(ms, "metadata"@) == Some(val_of(w)),
                    None => obj_get(ms, "metadata"@) is None,
                },
                _ => r is None,
            },
    {
        value.get("metadata")
    }

    /// The `sidecar_info` member, when one exists.
    pub fn extract_sidecar_info<'a>(value: &'a JsonValue) -> (r: Option<&'a JsonValue>)
        ensures
            match val_of(value) {
                Val::Obj(ms) => match r {
                    Some(w) => obj_get(ms, "sidecar_info"@) == Some(val_of(w)),
                    None => obj_get(ms, "sidecar_info"@) is None,
                },
                _ => r is None,
            },
    {
        value.get("sidecar_info")
    }

    /// Whether a payload carries one of the common detection members.
    pub fn has_detection_data(value: &JsonValue) -> (r: bool)
        ensures
            r == (match val_of(value) {
                Val::Obj(ms) => obj_get(ms, "faces"@) is Some || obj_get(ms, "objects"@)
                    is Some || obj_get(ms, "detections"@) is Some || obj_get(ms, "data"@)
                    is Some,
                _ => false,
            }),
    {
        let a = match value.get("faces") {
            Some(_) => true,
            None => false,
        };
        let b = match value.get("objects") {
            Some(_) => true,
            None => false,
        };
        let c = match value.get("detections") {
            Some(_) => true,
            None => false,
        };
        let d = match value.get("data") {
            Some(_) => true,
            None => false,
        };
        a || b || c || d
    }

    /// The size of a value's text rendering.
    pub fn estimate_size(value: &JsonValue) -> (r: usize)
        ensures
            r == ser_val(val_of(value)).len(),
    {
        let bytes = to_json_bytes(value);
        bytes.len()
    }

    /// Renders a value as pretty text: one member per line, two spaces
    /// of indentation per level.
    pub fn pretty_print(value: &JsonValue) -> (r: Vec<u8>)
        ensures
            r@ == pretty_val(val_of(value), 0),
    {
        to_pretty_bytes(value)
    }

    /// Renders a value as compact text.
    pub fn compact_print(value: &JsonValue) -> (r: Vec<u8>)
        ensures
            r@ == ser_val(val_of(value)),
    {
        to_json_bytes(value)
    }

    /// Deep merge, the overlay taking precedence: object members merge
    /// recursively, everything else is replaced by the overlay's value.
    pub fn merge_values(base: &JsonValue, overlay: &JsonValue) -> (r: JsonValue)
        ensures
            val_of(&r) == merge_spec(val_of(base), val_of(overlay)),
        decreases val_of(overlay),
    {
        let is_obj_pair = match (base, overlay) {
            (JsonValue::Object(_), JsonValue::Object(_)) => true,
            _ => false,
        };
        if !is_obj_pair {
            return deep_clone(overlay);
        }
        let bv = match base {
            JsonValue::Object(b) => b,
            _ => {
                proof {
                    assert(false);
                }
                return deep_clone(overlay);
            }
        };
        let ov = match overlay {
            JsonValue::Object(o) => o,
            _ => {
                proof {
                    assert(false);
                }
                return deep_clone(overlay);
            }
        };
        proof {
            lemma_members_of_index(ov@);
        }
        let cloned = deep_clone(base);
        let mut result = match cloned {
            JsonValue::Object(r0) => r0,
            _ => {
                proof {
                    assert(false);
                }
                return deep_clone(overlay);
            }
        };
        let ghost b0 = members_of(result@);
        let ghost oms = members_of(ov@);
        let n = ov.len();
        let mut k: usize = 0;
        proof {
            assert(oms.skip(0) =~= oms);
        }
        while k < n
            invariant
                val_of(overlay) == Val::Obj(members_of(ov@)),
                oms == members_of(ov@),
                n == ov@.len(),
                k <= n,
                oms.len() == n,
                forall|j: int| 0 <= j < n ==> #[trigger] oms[j] == (ov@[j].0@, val_of(
                    &ov@[j].1)),
                merge_members(b0, oms) == merge_members(members_of(result@), oms.skip(
                    k as int)),
            decreases n - k,
        {
            let under: JsonValue = match obj_find(&result, ov[k].0.as_str()) {
                Some(w) => deep_clone(w),
                None => JsonValue::Null,
            };
            proof {
                let gv = val_of(overlay);
                let ms = members_of(ov@);
                assert(decreases_to!(gv => gv->Obj_0));
                assert(decreases_to!(ms => ms[k as int]));
                let pr = ms[k as int];
                assert(decreases_to!(pr => pr.1));
                assert(pr.1 == val_of(&ov@[k as int].1));
                assert(decreases_to!(gv => val_of(&ov@[k as int].1)));
            }
            let merged0 = Self::merge_values(&under, &ov[k].1);
            let ghost pre = members_of(result@);
            obj_insert(&mut result, ov[k].0.clone(), merged0);
            proof {
                let rest = oms.skip(k as int);
                assert(rest[0] == oms[k as int]);
                assert(rest.drop_first() =~= oms.skip(k as int + 1));
                assert(merge_members(pre, rest) == merge_members(obj_set(pre, oms[k as int].0,
                    merge_spec(match obj_get(pre, oms[k as int].0) {
                        Some(b0v) => b0v,
                        None => Val::Null,
                    }, oms[k as int].1)), rest.drop_first()));
            }
            k = k + 1;
        }
        proof {
            assert(oms.skip(n as int) =~= Seq::<(Seq<char>, Val)>::empty());
            assert(merge_members(members_of(result@), Seq::empty()) == members_of(result@));
        }
        JsonValue::Object(result)
    }
}

/// Data-level operations on one sidecar payload: the text codec's read
/// and write, over plain bytes.
pub struct SidecarOperations;

impl SidecarOperations {
    /// Reads a payload from text bytes; fails exactly on bytes the text
    /// grammar rejects.
    pub fn load_data(bytes: &[u8]) -> (r: Result<JsonValue, SidecarError>)
        ensures
            match r {
                Ok(v) => parse_text(bytes@) == Some(val_of(&v)),
                Err(e) => parse_text(bytes@) is None && e matches SidecarError::Json(_),
            },
    {
        match from_json_bytes(bytes) {
            Some(v) => Ok(v),
            None => Err(SidecarError::Json(copy_str("payload is not well-formed text"))),
        }
    }

    /// Renders a payload as text bytes; the caller writes them as one
    /// whole-file replace.
    pub fn save_data(data: &JsonValue) -> (r: Vec<u8>)
        ensures
            r@ == ser_val(val_of(data)),
    {
        to_json_bytes(data)
    }

    /// The text-format merge: folds one operation's payload into an
    /// existing text sidecar's bytes (absent or undecodable bytes
    /// degrade to an empty object), binds the operation's token, and
    /// freshens or creates the `sidecar_info` block with the token as
    /// its last operation. Every other top-level key keeps its value.
    /// The caller writes the returned text bytes as one whole-file
    /// replace at the sidecar path of its choice.
    pub fn merge_data(existing: Option<&Vec<u8>>, operation: OperationType,
        data: JsonValue) -> (r: Vec<u8>)
        ensures
            ({
                let base = match existing {
                    Some(b) => match parse_text(b@) {
                        Some(v) => v,
                        None => Val::Obj(Seq::empty()),
                    },
                    None => Val::Obj(Seq::empty()),
                };
                match base {
                    Val::Obj(bms) => parse_text(r@) matches Some(m) && m matches Val::Obj(ms)
                        && obj_get(ms, operation.token()) == Some(val_of(&data)) && (obj_get(
                        ms, "sidecar_info"@) matches Some(blk) && ops_block_tokened(obj_get(
                        bms, "sidecar_info"@), operation.token(), blk)) && forall|k: Seq<char>|
                        k != operation.token() && k != "sidecar_info"@ ==> #[trigger] obj_get(
                            ms, k) == obj_get(bms, k),
                    _ => parse_text(r@) == Some(base),
                }
            }),
    {
        let mut base: JsonValue = JsonValue::Object(Vec::new());
        match existing {
            Some(b) => match from_json_bytes(b.as_slice()) {
                Some(v) => {
                    base = v;
                }
                None => {}
            },
            None => {}
        }
        let ghost gbase = match existing {
            Some(b) => match parse_text(b@) {
                Some(v) => v,
                None => Val::Obj(Seq::empty()),
            },
            None => Val::Obj(Seq::empty()),
        };
        proof {
            assert(members_of(Seq::<(String, JsonValue)>::empty()) =~= Seq::<(
                Seq<char>,
                Val,
            )>::empty());
            assert(val_of(&base) == gbase);
        }
        let ghost gdata = val_of(&data);
        match base {
            JsonValue::Object(mut o) => {
                let ghost bms = members_of(o@);
                obj_insert(&mut o, own_str(operation.as_str()), data);
                let ghost after_op = members_of(o@);
                let blk = fresh_ops_block(&mut o, operation);
                let ghost after_si = members_of(o@);
                let merged = JsonValue::Object(o);
                let out = to_json_bytes(&merged);
                let n = out.len();
                crate::jsontext::confirm_val_wf(&merged);
                proof {
                    assert(ser_val(val_of(&merged)).len() <= n as int);
                    crate::jsontext::lemma_text_round_trip(val_of(&merged));
                    assert(after_op == obj_set(bms, operation.token(), gdata));
                    assert(after_si == obj_set(after_op, "sidecar_info"@, blk@));
                    lemma_ops_token_distinct(operation);
                    lemma_obj_set_get_same(bms, operation.token(), gdata);
                    lemma_obj_set_get_same(after_op, "sidecar_info"@, blk@);
                    lemma_obj_set_get_other(after_op, "sidecar_info"@, blk@,
                        operation.token());
                    lemma_obj_set_get_other(bms, operation.token(), gdata, "sidecar_info"@);
                    assert forall|k: Seq<char>|
                        k != operation.token() && k != "sidecar_info"@
                        implies #[trigger] obj_get(after_si, k) == obj_get(bms, k) by {
                        lemma_obj_set_get_other(after_op, "sidecar_info"@, blk@, k);
                        lemma_obj_set_get_other(bms, operation.token(), gdata, k);
                    }
                }
                out
            }
            other => {
                let out = to_json_bytes(&other);
                crate::jsontext::confirm_val_wf(&other);
                proof {
                    crate::jsontext::lemma_text_round_trip(val_of(&other));
                }
                out
            }
        }
    }
}

/// Freshens or creates a merge's `sidecar_info` block for the text
/// entry point: bumps `last_updated` and sets `last_operation` in an
/// existing object block, leaves a non-object block untouched other than
/// rebinding it, and otherwise creates a block holding the operation's
/// token and its times. Yields the block's final value; the block always
/// carries the token as its last operation unless a non-object block was
/// already there.
fn fresh_ops_block(o: &mut Vec<(String, JsonValue)>, operation: OperationType) -> (r: Ghost<
    Val,
>)
    ensures
        members_of(final(o)@) == obj_set(members_of(old(o)@), "sidecar_info"@, r@),
        ops_block_tokened(obj_get(members_of(old(o)@), "sidecar_info"@), operation.token(),
            r@),
{
    proof {
        lemma_members_of_index(o@);
    }
    let n = o.len();
    let mut i: usize = 0;
    while i < n
        invariant
            n == o@.len(),
            i <= n,
            o@ == old(o)@,
            members_of(o@).len() == n,
            forall|q: int| 0 <= q < n ==> #[trigger] members_of(o@)[q] == (o@[q].0@, val_of(
                &o@[q].1)),
            forall|j: int| 0 <= j < i ==> #[trigger] members_of(o@)[j].0 != "sidecar_info"@,
        decreases n - i,
    {
        if crate::strutil::str_eq(o[i].0.as_str(), "sidecar_info") {
            proof {
                lemma_obj_index_of_witness(members_of(old(o)@), "sidecar_info"@, i as int);
            }
            let ghost pre = o@;
            let ghost prev_val = val_of(&o@[i as int].1);
            proof {
                assert(obj_get(members_of(old(o)@), "sidecar_info"@) == Some(prev_val));
            }
            let (k, v) = o.remove(i);
            let newv: JsonValue;
            match v {
                JsonValue::Object(mut sio) => {
                    let ghost presim = members_of(sio@);
                    let stamp = crate::types::now_rfc3339();
                    let ghost lut = stamp@;
                    obj_insert(&mut sio, own_str("last_updated"), JsonValue::Str(stamp));
                    let ghost m1 = members_of(sio@);
                    obj_insert(&mut sio, own_str("last_operation"), JsonValue::Str(own_str(
                        operation.as_str())));
                    let ghost m2 = members_of(sio@);
                    proof {
                        assert(m2 == obj_set(m1, "last_operation"@, Val::Str(
                            operation.token())));
                        lemma_obj_set_get_same(m1, "last_operation"@, Val::Str(
                            operation.token()));
                    }
                    newv = JsonValue::Object(sio);
                }
                other => {
                    proof {
                        assert(val_of(&other) == prev_val);
                    }
                    newv = other;
                }
            }
            let ghost gv = val_of(&newv);
            o.insert(i, (k, newv));
            proof {
                assert(o@ =~= pre.update(i as int, (o@[i as int].0, o@[i as int].1)));
                assert(o@[i as int].0@ == "sidecar_info"@);
                lemma_members_of_index(o@);
                lemma_members_of_index(pre);
                assert(members_of(o@) =~= obj_set(members_of(pre), "sidecar_info"@, gv));
            }
            return Ghost(gv);
        }
        i = i + 1;
    }
    proof {
        lemma_obj_index_of(members_of(old(o)@), "sidecar_info"@);
        if obj_index_of(members_of(old(o)@), "sidecar_info"@) >= 0 {
            assert(members_of(old(o)@)[obj_index_of(members_of(old(o)@), "sidecar_info"@)].0
                == "sidecar_info"@);
            assert(false);
        }
    }
    // absent: create the block
    let mut sio: Vec<(String, JsonValue)> = Vec::new();
    sio.push((own_str("operation_type"), JsonValue::Str(own_str(operation.as_str()))));
    sio.push((own_str("created_at"), JsonValue::Str(crate::types::now_rfc3339())));
    sio.push((own_str("last_updated"), JsonValue::Str(crate::types::now_rfc3339())));
    sio.push((own_str("last_operation"), JsonValue::Str(own_str(operation.as_str()))));
    let block = JsonValue::Object(sio);
    let ghost gv = val_of(&block);
    proof {
        let bm = members_of(block->Object_0@);
        lemma_members_of_index(block->Object_0@);
        reveal_strlit("operation_type");
        reveal_strlit("created_at");
        reveal_strlit("last_updated");
        reveal_strlit("last_operation");
        assert("operation_type"@.len() == 14 && "created_at"@.len() == 10
            && "last_updated"@.len() == 12 && "last_operation"@.len() == 14);
        assert("operation_type"@[0] == 'o' && "last_operation"@[0] == 'l');
        assert(bm[0].0 == "operation_type"@);
        assert(bm[1].0 == "created_at"@);
        assert(bm[2].0 == "last_updated"@);
        assert(bm[3].0 == "last_operation"@);
        lemma_obj_index_of_witness(bm, "last_operation"@, 3);
    }
    let ghost pre = o@;
    o.push((own_str("sidecar_info"), block));
    proof {
        lemma_members_of_index(o@);
        lemma_members_of_index(pre);
        assert(members_of(o@) =~= obj_set(members_of(pre), "sidecar_info"@, gv));
    }
    Ghost(gv)
}

/// No operation token is the info block's key.
proof fn lemma_ops_token_distinct(op: OperationType)
    ensures
        op.token() != "sidecar_info"@,
{
    reveal_strlit("sidecar_info");
    reveal_strlit("face_detection");
    reveal_strlit("object_detection");
    reveal_strlit("ball_detection");
    reveal_strlit("quality_assessment");
    reveal_strlit("game_detection");
    reveal_strlit("yolov8");
    reveal_strlit("unified");
    reveal_strlit("unknown");
    assert("sidecar_info"@.len() == 12);
}

/// An owned copy of a string slice.
fn own_str(s: &str) -> (r: String)
    ensures
        r@ == s@,
{
    s.to_owned()
}

/// An owned copy of a string slice.
fn copy_str(s: &str) -> (r: String)
    ensures
        r@ == s@,
{
    s.to_owned()
}

} // verus!
