//! The bulk validator: evaluates each candidate sidecar file
//! independently — existence, size, decode, and best-effort extraction of
//! diagnostic fields by probing a small set of well-known key names and
//! recursing into common nesting wrappers. Every file yields exactly one
//! outcome; no failure aborts a batch. The caller reads the files (and
//! may fan the per-file work out over threads); the judgement is here.

use vstd::prelude::*;
use crate::codec::{SidecarFormat, decode_spec};
use crate::types::{OperationType, ValidationResult};
use crate::value::{JsonValue, Val, val_of, obj_get, obj_index_of, lemma_obj_index_of};

verus! {

/// What reading one candidate file produced: the file was missing, its
/// metadata or bytes could not be read (with the reporter's message), or
/// its size and bytes.
pub enum FileRead {
    Missing,
    MetaFailed(String),
    ReadFailed(String),
    Content(u64, Vec<u8>),
}

/// The truncating 32-bit view of a non-negative count.
pub open spec fn trunc32(n: int) -> u32 {
    (n % 0x1_0000_0000) as u32
}

/// A member value as a non-negative integer, when it is one.
pub open spec fn as_nonneg_int(m: Option<Val>) -> Option<int> {
    match m {
        Some(Val::Int(n)) => if n >= 0 {
            Some(n)
        } else {
            None
        },
        _ => None,
    }
}

/// A member value's length as an array, when it is one.
pub open spec fn as_arr_len(m: Option<Val>) -> Option<int> {
    match m {
        Some(Val::Arr(a)) => Some(a.len() as int),
        _ => None,
    }
}

/// A member value as a string, when it is one.
pub open spec fn as_str_val(m: Option<Val>) -> Option<Seq<char>> {
    match m {
        Some(Val::Str(t)) => Some(t),
        _ => None,
    }
}

/// The `operation_type` token inside a `sidecar_info` block, when both
/// are present and shaped as expected.
pub open spec fn si_token(ms: Seq<(Seq<char>, Val)>) -> Option<Seq<char>> {
    match obj_get(ms, "sidecar_info"@) {
        Some(Val::Obj(sim)) => as_str_val(obj_get(sim, "operation_type"@)),
        _ => None,
    }
}

/// The detection count a payload reports: a `count` member first, the
/// length of a well-known detection array next, and otherwise the first
/// positive count found under a nesting wrapper key.
pub open spec fn count_spec(v: Val) -> u32
    decreases v,
    via count_spec_dec
{
    match v {
        Val::Obj(ms) => match as_nonneg_int(obj_get(ms, "count"@)) {
            Some(n) => trunc32(n),
            None => match as_arr_len(obj_get(ms, "faces"@)) {
                Some(l) => trunc32(l),
                None => match as_arr_len(obj_get(ms, "objects"@)) {
                    Some(l) => trunc32(l),
                    None => match as_arr_len(obj_get(ms, "detections"@)) {
                        Some(l) => trunc32(l),
                        None => {
                            let c1: u32 = match obj_get(ms, "data"@) {
                                Some(w) => count_spec(w),
                                None => 0,
                            };
                            if c1 > 0 {
                                c1
                            } else {
                                let c2: u32 = match obj_get(ms, "result"@) {
                                    Some(w) => count_spec(w),
                                    None => 0,
                                };
                                if c2 > 0 {
                                    c2
                                } else {
                                    match obj_get(ms, "detection"@) {
                                        Some(w) => count_spec(w),
                                        None => 0,
                                    }
                                }
                            }
                        },
                    },
                },
            },
        },
        _ => 0,
    }
}

#[via_fn]
proof fn count_spec_dec(v: Val) {
    lemma_obj_member_decreases(v);
}

/// Under an object value, every member's value sits below the object in
/// the well-founded order the recursion descends along.
proof fn lemma_obj_member_decreases(v: Val)
    ensures
        forall|key: Seq<char>|
            v is Obj && (#[trigger] obj_get(v->Obj_0, key)) is Some ==> decreases_to!(
            v => obj_get(v->Obj_0, key)->0),
{
    broadcast use vstd::seq::axiom_seq_index_decreases;

    assert forall|key: Seq<char>|
        v is Obj && (#[trigger] obj_get(v->Obj_0, key)) is Some implies decreases_to!(
        v => obj_get(v->Obj_0, key)->0) by {
        let ms = v->Obj_0;
        lemma_obj_index_of(ms, key);
        let i = obj_index_of(ms, key);
        assert(decreases_to!(v => v->Obj_0));
        assert(decreases_to!(ms => ms[i]));
        let p = ms[i];
        assert(decreases_to!(p => p.1));
    }
}

/// The tool name a payload reports, by the same probing.
pub open spec fn tool_spec(v: Val) -> Option<Seq<char>>
    decreases v,
    via tool_spec_dec
{
    match v {
        Val::Obj(ms) => match as_str_val(obj_get(ms, "tool_name"@)) {
            Some(t) => Some(t),
            None => match as_str_val(obj_get(ms, "detector"@)) {
                Some(t) => Some(t),
                None => match as_str_val(obj_get(ms, "model"@)) {
                    Some(t) => Some(t),
                    None => match as_str_val(obj_get(ms, "algorithm"@)) {
                        Some(t) => Some(t),
                        None => {
                            let r1: Option<Seq<char>> = match obj_get(ms, "data"@) {
                                Some(w) => tool_spec(w),
                                None => None,
                            };
                            if r1 is Some {
                                r1
                            } else {
                                let r2: Option<Seq<char>> = match obj_get(ms, "result"@) {
                                    Some(w) => tool_spec(w),
                                    None => None,
                                };
                                if r2 is Some {
                                    r2
                                } else {
                                    match obj_get(ms, "metadata"@) {
                                        Some(w) => tool_spec(w),
                                        None => None,
                                    }
                                }
                            }
                        },
                    },
                },
            },
        },
        _ => None,
    }
}

#[via_fn]
proof fn tool_spec_dec(v: Val) {
    lemma_obj_member_decreases(v);
}

/// The first detector key (in table order) present in an object, if any.
pub open spec fn detector_scan_opt(ms: Seq<(Seq<char>, Val)>, k: int) -> Option<OperationType>
    decreases crate::manager::detector_map().len() - k,
{
    if k < 0 || k >= crate::manager::detector_map().len() {
        None
    } else if obj_get(ms, crate::manager::detector_map()[k].0) is Some {
        Some(crate::manager::detector_map()[k].1)
    } else {
        detector_scan_opt(ms, k + 1)
    }
}

/// The operation a payload reports: the `sidecar_info` block's token, a
/// detector key next, absence otherwise.
pub open spec fn op_extract_spec(v: Val) -> Option<OperationType> {
    match v {
        Val::Obj(ms) => match si_token(ms) {
            Some(t) => Some(OperationType::from_token(t)),
            None => detector_scan_opt(ms, 0),
        },
        _ => None,
    }
}

/// Whether a payload records an operation token: as a direct key, in the
/// `sidecar_info` block, or under a nesting wrapper key.
pub open spec fn contains_op_spec(v: Val, token: Seq<char>) -> bool
    decreases v,
    via contains_op_spec_dec
{
    match v {
        Val::Obj(ms) => {
            if obj_get(ms, token) is Some {
                true
            } else if si_token(ms) == Some(token) {
                true
            } else {
                let r1 = match obj_get(ms, "data"@) {
                    Some(w) => contains_op_spec(w, token),
                    None => false,
                };
                r1 || (match obj_get(ms, "result"@) {
                    Some(w) => contains_op_spec(w, token),
                    None => false,
                })
            }
        }
        _ => false,
    }
}

#[via_fn]
proof fn contains_op_spec_dec(v: Val, token: Seq<char>) {
    lemma_obj_member_decreases(v);
}

/// The format a candidate file is read under: its extension's format,
/// text when the extension names none.
pub open spec fn read_format(p: Seq<char>) -> SidecarFormat {
    crate::manager::cur_format(p)
}

/// The exact outcome of validating one candidate file.
pub open spec fn validate_matches(r: ValidationResult, path: Seq<char>, read: FileRead,
    elapsed: u64) -> bool {
    &&& r.file_path@ == path
    &&& r.processing_time == elapsed
    &&& match read {
        FileRead::Missing => !r.is_valid && (r.error matches Some(m) && m@
            == "File does not exist"@) && r.file_size == 0 && r.detection_count == 0
            && r.tool_name is None && r.operation_type is None,
        FileRead::MetaFailed(msg) => !r.is_valid && (r.error matches Some(m) && m@
            == "File metadata error: "@ + msg@) && r.file_size == 0 && r.detection_count == 0
            && r.tool_name is None && r.operation_type is None,
        FileRead::ReadFailed(msg) => !r.is_valid && (r.error matches Some(m) && m@
            == "File read error: "@ + msg@) && r.file_size == 0 && r.detection_count == 0
            && r.tool_name is None && r.operation_type is None,
        FileRead::Content(size, bytes) => match decode_spec(read_format(path), bytes@) {
            Some(v) => r.is_valid && r.error is None && r.file_size == size
                && r.detection_count == count_spec(v) && (match tool_spec(v) {
                Some(t) => r.tool_name matches Some(tn) && tn@ == t,
                None => r.tool_name is None,
            }) && r.operation_type == op_extract_spec(v),
            None => !r.is_valid && (r.error matches Some(m) && m@
                == "Deserialization error"@) && r.file_size == 0 && r.detection_count == 0
                && r.tool_name is None && r.operation_type is None,
        },
    }
}

/// The data-parallel validator. The worker count bounds the caller's
/// fan-out; the judgement of each file is independent of every other.
pub struct ParallelProcessor {
    pub max_workers: usize,
}

impl ParallelProcessor {
    pub fn new(max_workers: usize) -> (r: Self)
        ensures
            r.max_workers == max_workers,
    {
        ParallelProcessor { max_workers }
    }

    /// Judges one candidate file from what reading it produced. Any
    /// failure short-circuits to an error outcome carrying the elapsed
    /// time and a message; extraction is best-effort and never fails.
    pub fn validate_one(&self, path: &str, read: &FileRead, elapsed_us: u64) -> (r:
        ValidationResult)
        ensures
            validate_matches(r, path@, *read, elapsed_us),
    {
        match read {
            FileRead::Missing => ValidationResult::error(str_copy(path), str_copy(
                "File does not exist"), elapsed_us),
            FileRead::MetaFailed(msg) => {
                let mut m = str_copy("File metadata error: ");
                m.append(msg.as_str());
                ValidationResult::error(str_copy(path), m, elapsed_us)
            }
            FileRead::ReadFailed(msg) => {
                let mut m = str_copy("File read error: ");
                m.append(msg.as_str());
                ValidationResult::error(str_copy(path), m, elapsed_us)
            }
            FileRead::Content(size, bytes) => {
                let fmt = match SidecarFormat::from_path(path) {
                    Some(f) => f,
                    None => SidecarFormat::Json,
                };
                let fm = crate::codec::FormatManager::new();
                match fm.deserialize_with(fmt, bytes.as_slice()) {
                    Ok(v) => {
                        let mut r = ValidationResult::success(str_copy(path), elapsed_us,
                            *size);
                        r.detection_count = extract_detection_count(&v);
                        r.tool_name = extract_tool_name(&v);
                        r.operation_type = extract_operation_type(&v);
                        r
                    }
                    Err(_) => ValidationResult::error(str_copy(path), str_copy(
                        "Deserialization error"), elapsed_us),
                }
            }
        }
    }

    /// Judges a batch: exactly one outcome per input, in input order,
    /// never failing as a whole — a corrupt file among valid ones yields
    /// its own error outcome and nothing else.
    pub fn validate_files_parallel(&self, files: Vec<(String, FileRead, u64)>) -> (r: Vec<
        ValidationResult,
    >)
        ensures
            r@.len() == files@.len(),
            forall|i: int|
                0 <= i < files@.len() ==> validate_matches(#[trigger] r@[i], files@[i].0@,
                    files@[i].1, files@[i].2),
    {
        let mut out: Vec<ValidationResult> = Vec::new();
        let n = files.len();
        let mut i: usize = 0;
        while i < n
            invariant
                n == files@.len(),
                i <= n,
                out@.len() == i,
                forall|k: int|
                    0 <= k < i ==> validate_matches(#[trigger] out@[k], files@[k].0@,
                        files@[k].1, files@[k].2),
            decreases n - i,
        {
            let r = self.validate_one(files[i].0.as_str(), &files[i].1, files[i].2);
            out.push(r);
            i = i + 1;
        }
        out
    }

    /// Keeps the paths whose parsed payload records the token — and,
    /// fail-open, every path whose payload could not be read or parsed:
    /// filtering must never hide a file downstream validation should see.
    pub fn filter_by_operation_type(&self, items: Vec<(String, Option<JsonValue>)>,
        operation_type: &str) -> (r: Vec<String>)
        ensures
            crate::manager::strs_view(r@) == filter_spec(items@, operation_type@,
                items@.len() as int),
    {
        let ghost gitems = items@;
        let mut out: Vec<String> = Vec::new();
        let n = items.len();
        let mut i: usize = 0;
        while i < n
            invariant
                n == gitems.len(),
                gitems == items@,
                i <= n,
                crate::manager::strs_view(out@) == filter_spec(gitems, operation_type@,
                    i as int),
            decreases n - i,
        {
            let keep = match &items[i].1 {
                None => true,
                Some(v) => contains_operation_type(v, operation_type),
            };
            if keep {
                out.push(items[i].0.clone());
            }
            proof {
                assert(crate::manager::strs_view(out@) =~= filter_spec(gitems,
                    operation_type@, i as int + 1));
            }
            i = i + 1;
        }
        out
    }
}

/// A summary of a validation batch. Percentages count hundredths of a
/// percent; averages floor.
pub struct ValidationStats {
    pub total_files: u64,
    pub valid_files: u64,
    pub invalid_files: u64,
    pub valid_percentage: u64,
    pub total_processing_time: u128,
    pub avg_processing_time: u64,
    pub total_file_size: u128,
    pub avg_file_size: u64,
}

/// Valid outcomes among the first `j` results.
pub open spec fn count_valid(rs: Seq<ValidationResult>, j: int) -> int
    decreases j,
{
    if j <= 0 {
        0
    } else if rs[j - 1].is_valid {
        count_valid(rs, j - 1) + 1
    } else {
        count_valid(rs, j - 1)
    }
}

/// Total processing time of the first `j` results.
pub open spec fn sum_time(rs: Seq<ValidationResult>, j: int) -> int
    decreases j,
{
    if j <= 0 {
        0
    } else {
        sum_time(rs, j - 1) + rs[j - 1].processing_time
    }
}

/// Total file size of the first `j` results.
pub open spec fn sum_sizes(rs: Seq<ValidationResult>, j: int) -> int
    decreases j,
{
    if j <= 0 {
        0
    } else {
        sum_sizes(rs, j - 1) + rs[j - 1].file_size
    }
}

impl ParallelProcessor {
    /// Summarizes a batch: definite counts of processed, valid and
    /// invalid files — even when every file failed — with totals,
    /// averages and the valid share.
    pub fn get_validation_statistics(&self, results: &Vec<ValidationResult>) -> (r:
        ValidationStats)
        ensures
            r.total_files as int == results@.len(),
            r.valid_files as int == count_valid(results@, results@.len() as int),
            r.invalid_files as int == results@.len() - count_valid(results@,
                results@.len() as int),
            results@.len() > 0 ==> r.valid_percentage as int == count_valid(results@,
                results@.len() as int) * 10000 / (results@.len() as int),
            results@.len() == 0 ==> r.valid_percentage == 0,
            r.total_processing_time as int == sum_time(results@, results@.len() as int),
            r.total_file_size as int == sum_sizes(results@, results@.len() as int),
            results@.len() > 0 ==> r.avg_processing_time as int == sum_time(results@,
                results@.len() as int) / (results@.len() as int),
            results@.len() == 0 ==> r.avg_processing_time == 0,
            results@.len() > 0 ==> r.avg_file_size as int == sum_sizes(results@,
                results@.len() as int) / (results@.len() as int),
            results@.len() == 0 ==> r.avg_file_size == 0,
    {
        let n = results.len();
        let mut valid: u64 = 0;
        let mut time: u128 = 0;
        let mut size: u128 = 0;
        let mut i: usize = 0;
        while i < n
            invariant
                n == results@.len(),
                i <= n,
                valid as int == count_valid(results@, i as int),
                valid as int <= i as int,
                time as int == sum_time(results@, i as int),
                time as int <= i as int * 0xffff_ffff_ffff_ffff,
                size as int == sum_sizes(results@, i as int),
                size as int <= i as int * 0xffff_ffff_ffff_ffff,
            decreases n - i,
        {
            if results[i].is_valid {
                valid = valid + 1;
            }
            time = time + results[i].processing_time as u128;
            size = size + results[i].file_size as u128;
            i = i + 1;
        }
        let total = n as u64;
        let mut pct: u64 = 0;
        let mut avg_time: u64 = 0;
        let mut avg_size: u64 = 0;
        if n > 0 {
            proof {
                vstd::arithmetic::div_mod::lemma_div_multiples_vanish(10000, n as int);
                vstd::arithmetic::div_mod::lemma_div_is_ordered(valid as int * 10000, n as int
                    * 10000, n as int);
                assert(valid as int * 10000 <= n as int * 10000) by (nonlinear_arith)
                    requires valid as int <= n as int;
                vstd::arithmetic::div_mod::lemma_div_multiples_vanish(0xffff_ffff_ffff_ffff,
                    n as int);
                vstd::arithmetic::div_mod::lemma_div_is_ordered(time as int, n as int
                    * 0xffff_ffff_ffff_ffff, n as int);
                vstd::arithmetic::div_mod::lemma_div_is_ordered(size as int, n as int
                    * 0xffff_ffff_ffff_ffff, n as int);
            }
            pct = ((valid as u128) * 10000 / (n as u128)) as u64;
            avg_time = (time / (n as u128)) as u64;
            avg_size = (size / (n as u128)) as u64;
        }
        ValidationStats {
            total_files: total,
            valid_files: valid,
            invalid_files: total - valid,
            valid_percentage: pct,
            total_processing_time: time,
            avg_processing_time: avg_time,
            total_file_size: size,
            avg_file_size: avg_size,
        }
    }
}

/// One operation's row in a batch summary. Rates count hundredths of a
/// percent; averages floor.
pub struct OperationStats {
    pub operation: OperationType,
    pub count: u64,
    pub valid_count: u64,
    pub success_rate: u64,
    pub avg_processing_time: u64,
    pub avg_file_size: u64,
}

/// Results attributed to one operation among the first `j`.
pub open spec fn count_op_results(rs: Seq<ValidationResult>, op: OperationType, j: int) -> int
    decreases j,
{
    if j <= 0 {
        0
    } else if rs[j - 1].operation_type == Some(op) {
        count_op_results(rs, op, j - 1) + 1
    } else {
        count_op_results(rs, op, j - 1)
    }
}

/// Valid results attributed to one operation among the first `j`.
pub open spec fn valid_op_results(rs: Seq<ValidationResult>, op: OperationType, j: int) -> int
    decreases j,
{
    if j <= 0 {
        0
    } else if rs[j - 1].operation_type == Some(op) && rs[j - 1].is_valid {
        valid_op_results(rs, op, j - 1) + 1
    } else {
        valid_op_results(rs, op, j - 1)
    }
}

/// Total processing time of one operation's results among the first `j`.
pub open spec fn time_op_results(rs: Seq<ValidationResult>, op: OperationType, j: int) -> int
    decreases j,
{
    if j <= 0 {
        0
    } else if rs[j - 1].operation_type == Some(op) {
        time_op_results(rs, op, j - 1) + rs[j - 1].processing_time
    } else {
        time_op_results(rs, op, j - 1)
    }
}

/// Total file size of one operation's results among the first `j`.
pub open spec fn size_op_results(rs: Seq<ValidationResult>, op: OperationType, j: int) -> int
    decreases j,
{
    if j <= 0 {
        0
    } else if rs[j - 1].operation_type == Some(op) {
        size_op_results(rs, op, j - 1) + rs[j - 1].file_size
    } else {
        size_op_results(rs, op, j - 1)
    }
}

/// One operation's tallies over a batch.
fn tally_op_results(rs: &Vec<ValidationResult>, op: OperationType) -> (r: (
    u64,
    u64,
    u128,
    u128,
))
    ensures
        r.0 as int == count_op_results(rs@, op, rs@.len() as int),
        r.1 as int == valid_op_results(rs@, op, rs@.len() as int),
        r.2 as int == time_op_results(rs@, op, rs@.len() as int),
        r.3 as int == size_op_results(rs@, op, rs@.len() as int),
        r.1 <= r.0,
        r.0 as int <= rs@.len(),
        r.2 as int <= r.0 as int * 0xffff_ffff_ffff_ffff,
        r.3 as int <= r.0 as int * 0xffff_ffff_ffff_ffff,
{
    let n = rs.len();
    let mut c: u64 = 0;
    let mut v: u64 = 0;
    let mut tm: u128 = 0;
    let mut sz: u128 = 0;
    let mut t: usize = 0;
    while t < n
        invariant
            n == rs@.len(),
            t <= n,
            c as int == count_op_results(rs@, op, t as int),
            v as int == valid_op_results(rs@, op, t as int),
            tm as int == time_op_results(rs@, op, t as int),
            sz as int == size_op_results(rs@, op, t as int),
            v <= c,
            c as int <= t as int,
            tm as int <= c as int * 0xffff_ffff_ffff_ffff,
            sz as int <= c as int * 0xffff_ffff_ffff_ffff,
        decreases n - t,
    {
        let hit = match &rs[t].operation_type {
            Some(o) => *o == op,
            None => false,
        };
        if hit {
            c = c + 1;
            if rs[t].is_valid {
                v = v + 1;
            }
            tm = tm + rs[t].processing_time as u128;
            sz = sz + rs[t].file_size as u128;
        }
        t = t + 1;
    }
    (c, v, tm, sz)
}

/// The per-operation rows of a batch summary agree with the results: one
/// row per operation that occurs among them.
pub open spec fn op_rows_ok(rs: Seq<ValidationResult>, rows: Seq<OperationStats>) -> bool {
    let n = rs.len() as int;
    &&& forall|i: int, k: int|
        0 <= i < k < rows.len() ==> (#[trigger] rows[i]).operation != (
        #[trigger] rows[k]).operation
    &&& forall|i: int|
        0 <= i < rows.len() ==> {
            let row = #[trigger] rows[i]
            ;
            &&& row.count as int == count_op_results(rs, row.operation, n)
            &&& row.count > 0
            &&& row.valid_count as int == valid_op_results(rs, row.operation, n)
            &&& row.success_rate as int == valid_op_results(rs, row.operation, n) * 10000
                / count_op_results(rs, row.operation, n)
            &&& row.avg_processing_time as int == time_op_results(rs, row.operation, n)
                / count_op_results(rs, row.operation, n)
            &&& row.avg_file_size as int == size_op_results(rs, row.operation, n)
                / count_op_results(rs, row.operation, n)
        }
    &&& forall|op: OperationType|
        #[trigger] count_op_results(rs, op, n) > 0 ==> exists|i: int|
            0 <= i < rows.len() && (#[trigger] rows[i]).operation == op
}

impl ParallelProcessor {
    /// Groups a batch's outcomes by the operation each file reported:
    /// count, valid count, success rate and averages per operation.
    pub fn get_operation_statistics(&self, results: &Vec<ValidationResult>) -> (r: Vec<
        OperationStats,
    >)
        ensures
            op_rows_ok(results@, r@),
    {
        let ghost grs = results@;
        let mut ops: Vec<OperationType> = Vec::new();
        ops.push(OperationType::FaceDetection);
        ops.push(OperationType::ObjectDetection);
        ops.push(OperationType::BallDetection);
        ops.push(OperationType::QualityAssessment);
        ops.push(OperationType::GameDetection);
        ops.push(OperationType::Yolov8);
        ops.push(OperationType::Unified);
        ops.push(OperationType::Unknown);
        proof {
            assert forall|op: OperationType| ops@.contains(op) by {
                match op {
                    OperationType::FaceDetection => {
                        assert(ops@[0] == op);
                    }
                    OperationType::ObjectDetection => {
                        assert(ops@[1] == op);
                    }
                    OperationType::BallDetection => {
                        assert(ops@[2] == op);
                    }
                    OperationType::QualityAssessment => {
                        assert(ops@[3] == op);
                    }
                    OperationType::GameDetection => {
                        assert(ops@[4] == op);
                    }
                    OperationType::Yolov8 => {
                        assert(ops@[5] == op);
                    }
                    OperationType::Unified => {
                        assert(ops@[6] == op);
                    }
                    OperationType::Unknown => {
                        assert(ops@[7] == op);
                    }
                }
            }
        }
        let nops = ops.len();
        let mut rows: Vec<OperationStats> = Vec::new();
        let mut q: usize = 0;
        while q < nops
            invariant
                nops == ops@.len(),
                grs == results@,
                q <= nops,
                forall|i: int, k: int| 0 <= i < k < ops@.len() ==> ops@[i] != ops@[k],
                forall|i: int|
                    0 <= i < rows@.len() ==> exists|w: int|
                        0 <= w < q && ops@[w] == (#[trigger] rows@[i]).operation,
                forall|i: int, k: int|
                    0 <= i < k < rows@.len() ==> (#[trigger] rows@[i]).operation != (
                    #[trigger] rows@[k]).operation,
                forall|i: int|
                    0 <= i < rows@.len() ==> {
                        let row = #[trigger] rows@[i]
                        ;
                        &&& row.count as int == count_op_results(grs, row.operation,
                            grs.len() as int)
                        &&& row.count > 0
                        &&& row.valid_count as int == valid_op_results(grs, row.operation,
                            grs.len() as int)
                        &&& row.success_rate as int == valid_op_results(grs, row.operation,
                            grs.len() as int) * 10000 / count_op_results(grs, row.operation,
                            grs.len() as int)
                        &&& row.avg_processing_time as int == time_op_results(grs,
                            row.operation, grs.len() as int) / count_op_results(grs,
                            row.operation, grs.len() as int)
                        &&& row.avg_file_size as int == size_op_results(grs, row.operation,
                            grs.len() as int) / count_op_results(grs, row.operation,
                            grs.len() as int)
                    },
                forall|w: int|
                    0 <= w < q && #[trigger] count_op_results(grs, ops@[w], grs.len() as int)
                        > 0 ==> exists|i: int|
                        0 <= i < rows@.len() && (#[trigger] rows@[i]).operation == ops@[w],
            decreases nops - q,
        {
            let op = ops[q];
            let (c, v, tm, sz) = tally_op_results(results, op);
            if c > 0 {
                let rate128 = (v as u128) * 10000 / (c as u128);
                let avg_t = tm / (c as u128);
                let avg_s = sz / (c as u128);
                proof {
                    vstd::arithmetic::div_mod::lemma_div_multiples_vanish(10000, c as int);
                    vstd::arithmetic::div_mod::lemma_div_is_ordered(v as int * 10000, c as int
                        * 10000, c as int);
                    assert(v as int * 10000 <= c as int * 10000) by (nonlinear_arith)
                        requires v <= c;
                    assert(rate128 <= 10000);
                    vstd::arithmetic::div_mod::lemma_div_multiples_vanish(
                        0xffff_ffff_ffff_ffff, c as int);
                    vstd::arithmetic::div_mod::lemma_div_is_ordered(tm as int, c as int
                        * 0xffff_ffff_ffff_ffff, c as int);
                    vstd::arithmetic::div_mod::lemma_div_is_ordered(sz as int, c as int
                        * 0xffff_ffff_ffff_ffff, c as int);
                    assert(avg_t <= 0xffff_ffff_ffff_ffff);
                    assert(avg_s <= 0xffff_ffff_ffff_ffff);
                }
                let ghost pre = rows@;
                rows.push(OperationStats {
                    operation: op,
                    count: c,
                    valid_count: v,
                    success_rate: rate128 as u64,
                    avg_processing_time: avg_t as u64,
                    avg_file_size: avg_s as u64,
                });
                proof {
                    assert(forall|i: int|
                        0 <= i < pre.len() ==> (#[trigger] rows@[i]) == pre[i]);
                    assert(rows@[pre.len() as int].operation == op);
                    assert forall|i: int, k: int| 0 <= i < k < rows@.len() implies (
                        #[trigger] rows@[i]).operation != (#[trigger] rows@[k]).operation by {
                        if k == pre.len() as int {
                            let w = choose|w: int|
                                0 <= w < q && ops@[w] == (#[trigger] pre[i]).operation;
                            assert(ops@[w] != ops@[q as int]);
                        }
                    }
                    assert forall|w: int|
                        0 <= w < q + 1 && #[trigger] count_op_results(grs, ops@[w],
                            grs.len() as int) > 0 implies exists|i: int|
                        0 <= i < rows@.len() && (#[trigger] rows@[i]).operation == ops@[w] by {
                        if w < q {
                            let i0 = choose|i: int|
                                0 <= i < pre.len() && (#[trigger] pre[i]).operation == ops@[w];
                            assert(rows@[i0] == pre[i0]);
                        } else {
                            assert(rows@[pre.len() as int].operation == ops@[w]);
                        }
                    }
                }
            }
            q = q + 1;
        }
        proof {
            assert forall|op: OperationType|
                #[trigger] count_op_results(grs, op, grs.len() as int) > 0 implies exists|
                i: int,
            |
                0 <= i < rows@.len() && (#[trigger] rows@[i]).operation == op by {
                assert(ops@.contains(op));
                let w = choose|w: int| 0 <= w < ops@.len() && ops@[w] == op;
            }
        }
        rows
    }
}

/// The paths kept among the first `j` items: unreadable payloads stay.
pub open spec fn filter_spec(items: Seq<(String, Option<JsonValue>)>, token: Seq<char>,
    j: int) -> Seq<Seq<char>>
    decreases j,
{
    if j <= 0 {
        Seq::empty()
    } else {
        let kept = match items[j - 1].1 {
            None => true,
            Some(v) => contains_op_spec(val_of(&v), token),
        };
        if kept {
            filter_spec(items, token, j - 1) + seq![items[j - 1].0@]
        } else {
            filter_spec(items, token, j - 1)
        }
    }
}

/// An owned copy of a string slice.
fn str_copy(s: &str) -> (r: String)
    ensures
        r@ == s@,
{
    s.to_owned()
}

/// The detection count of a payload; a pure, best-effort probe.
pub fn extract_detection_count(data: &JsonValue) -> (r: u32)
    ensures
        r == count_spec(val_of(data)),
    decreases val_of(data),
{
    match data {
        JsonValue::Object(o) => {
            proof {
                crate::value::lemma_members_of_index(o@);
            }
            match data.get("count") {
                Some(JsonValue::Int(n)) => {
                    if *n >= 0 {
                        return ((*n as u64) % 0x1_0000_0000) as u32;
                    }
                }
                _ => {}
            }
            match data.get("faces") {
                Some(JsonValue::Array(a)) => {
                    proof {
                        crate::value::lemma_vals_of_index(a@);
                    }
                    return ((a.len() as u64) % 0x1_0000_0000) as u32;
                }
                _ => {}
            }
            match data.get("objects") {
                Some(JsonValue::Array(a)) => {
                    proof {
                        crate::value::lemma_vals_of_index(a@);
                    }
                    return ((a.len() as u64) % 0x1_0000_0000) as u32;
                }
                _ => {}
            }
            match data.get("detections") {
                Some(JsonValue::Array(a)) => {
                    proof {
                        crate::value::lemma_vals_of_index(a@);
                    }
                    return ((a.len() as u64) % 0x1_0000_0000) as u32;
                }
                _ => {}
            }
            let c1: u32 = match data.get("data") {
                Some(w) => {
                    proof {
                        lemma_member_decreases_exec(data, "data"@, w);
                    }
                    extract_detection_count(w)
                }
                None => 0,
            };
            if c1 > 0 {
                return c1;
            }
            let c2: u32 = match data.get("result") {
                Some(w) => {
                    proof {
                        lemma_member_decreases_exec(data, "result"@, w);
                    }
                    extract_detection_count(w)
                }
                None => 0,
            };
            if c2 > 0 {
                return c2;
            }
            match data.get("detection") {
                Some(w) => {
                    proof {
                        lemma_member_decreases_exec(data, "detection"@, w);
                    }
                    extract_detection_count(w)
                }
                None => 0,
            }
        }
        _ => 0,
    }
}

/// The nested value an object lookup found sits below the object.
proof fn lemma_member_decreases_exec(data: &JsonValue, key: Seq<char>, w: &JsonValue)
    requires
        val_of(data) matches Val::Obj(ms) && obj_get(ms, key) == Some(val_of(w)),
    ensures
        decreases_to!(val_of(data) => val_of(w)),
{
    lemma_obj_member_decreases(val_of(data));
    assert(obj_get(val_of(data)->Obj_0, key) matches Some(x));
}

/// The tool name of a payload; a pure, best-effort probe.
pub fn extract_tool_name(data: &JsonValue) -> (r: Option<String>)
    ensures
        match r {
            Some(t) => tool_spec(val_of(data)) == Some(t@),
            None => tool_spec(val_of(data)) is None,
        },
    decreases val_of(data),
{
    match data {
        JsonValue::Object(_) => {
            match data.get("tool_name") {
                Some(JsonValue::Str(s)) => {
                    return Some(s.clone());
                }
                _ => {}
            }
            match data.get("detector") {
                Some(JsonValue::Str(s)) => {
                    return Some(s.clone());
                }
                _ => {}
            }
            match data.get("model") {
                Some(JsonValue::Str(s)) => {
                    return Some(s.clone());
                }
                _ => {}
            }
            match data.get("algorithm") {
                Some(JsonValue::Str(s)) => {
                    return Some(s.clone());
                }
                _ => {}
            }
            let r1: Option<String> = match data.get("data") {
                Some(w) => {
                    proof {
                        lemma_member_decreases_exec(data, "data"@, w);
                    }
                    extract_tool_name(w)
                }
                None => None,
            };
            if r1.is_some() {
                return r1;
            }
            let r2: Option<String> = match data.get("result") {
                Some(w) => {
                    proof {
                        lemma_member_decreases_exec(data, "result"@, w);
                    }
                    extract_tool_name(w)
                }
                None => None,
            };
            if r2.is_some() {
                return r2;
            }
            match data.get("metadata") {
                Some(w) => {
                    proof {
                        lemma_member_decreases_exec(data, "metadata"@, w);
                    }
                    extract_tool_name(w)
                }
                None => None,
            }
        }
        _ => None,
    }
}

/// The operation of a payload; a pure, best-effort probe that never
/// fails — absence is `None`, not an error.
pub fn extract_operation_type(data: &JsonValue) -> (r: Option<OperationType>)
    ensures
        r == op_extract_spec(val_of(data)),
{
    match data {
        JsonValue::Object(_) => {}
        _ => {
            return None;
        }
    }
    match data.get("sidecar_info") {
        Some(si) => match si.get("operation_type") {
            Some(JsonValue::Str(tok)) => {
                return Some(OperationType::from_str(tok.as_str()));
            }
            _ => {}
        },
        None => {}
    }
    let mapping = crate::manager::SidecarManager::new();
    let n = mapping.operation_mapping.len();
    let mut k: usize = 0;
    proof {
        assert(op_extract_spec(val_of(data)) == detector_scan_opt(val_of(data)->Obj_0, 0));
    }
    while k < n
        invariant
            mapping.wf(),
            n == crate::manager::detector_map().len(),
            k <= n,
            val_of(data) is Obj,
            op_extract_spec(val_of(data)) == detector_scan_opt(val_of(data)->Obj_0, 0),
            forall|j: int|
                0 <= j < k ==> obj_get(val_of(data)->Obj_0,
                    crate::manager::detector_map()[j].0) is None,
        decreases n - k,
    {
        proof {
            assert(crate::manager::map_view(mapping.operation_mapping@)[k as int]
                == crate::manager::detector_map()[k as int]);
        }
        match data.get(mapping.operation_mapping[k].0.as_str()) {
            Some(_) => {
                proof {
                    lemma_detector_scan_opt_hit(val_of(data)->Obj_0, k as int);
                }
                return Some(mapping.operation_mapping[k].1);
            }
            None => {}
        }
        k = k + 1;
    }
    proof {
        lemma_detector_scan_opt_miss(val_of(data)->Obj_0, 0);
    }
    None
}

proof fn lemma_detector_scan_opt_hit(ms: Seq<(Seq<char>, Val)>, k: int)
    requires
        0 <= k < crate::manager::detector_map().len(),
        obj_get(ms, crate::manager::detector_map()[k].0) is Some,
        forall|j: int|
            0 <= j < k ==> obj_get(ms, crate::manager::detector_map()[j].0) is None,
    ensures
        detector_scan_opt(ms, 0) == Some(crate::manager::detector_map()[k].1),
{
    lemma_detector_scan_opt_from(ms, 0, k);
}

proof fn lemma_detector_scan_opt_from(ms: Seq<(Seq<char>, Val)>, i: int, k: int)
    requires
        0 <= i <= k < crate::manager::detector_map().len(),
        obj_get(ms, crate::manager::detector_map()[k].0) is Some,
        forall|j: int|
            0 <= j < k ==> obj_get(ms, crate::manager::detector_map()[j].0) is None,
    ensures
        detector_scan_opt(ms, i) == Some(crate::manager::detector_map()[k].1),
    decreases k - i,
{
    if i < k {
        lemma_detector_scan_opt_from(ms, i + 1, k);
    }
}

proof fn lemma_detector_scan_opt_miss(ms: Seq<(Seq<char>, Val)>, i: int)
    requires
        0 <= i,
        forall|j: int|
            0 <= j < crate::manager::detector_map().len() ==> obj_get(ms,
                crate::manager::detector_map()[j].0) is None,
    ensures
        detector_scan_opt(ms, i) is None,
    decreases crate::manager::detector_map().len() - i,
{
    if i < crate::manager::detector_map().len() {
        lemma_detector_scan_opt_miss(ms, i + 1);
    }
}

/// Whether a payload records the token; a pure probe, fail-open callers
/// keep what they cannot judge.
pub fn contains_operation_type(data: &JsonValue, operation_type: &str) -> (r: bool)
    ensures
        r == contains_op_spec(val_of(data), operation_type@),
    decreases val_of(data),
{
    match data {
        JsonValue::Object(_) => {}
        _ => {
            return false;
        }
    }
    match data.get(operation_type) {
        Some(_) => {
            return true;
        }
        None => {}
    }
    let mut si_hit = false;
    match data.get("sidecar_info") {
        Some(si) => match si.get("operation_type") {
            Some(JsonValue::Str(t)) => {
                if crate::strutil::str_eq(t.as_str(), operation_type) {
                    si_hit = true;
                }
            }
            _ => {}
        },
        None => {}
    }
    if si_hit {
        return true;
    }
    let r1 = match data.get("data") {
        Some(w) => {
            proof {
                lemma_member_decreases_exec(data, "data"@, w);
            }
            contains_operation_type(w, operation_type)
        }
        None => false,
    };
    if r1 {
        return true;
    }
    match data.get("result") {
        Some(w) => {
            proof {
                lemma_member_decreases_exec(data, "result"@, w);
            }
            contains_operation_type(w, operation_type)
        }
        None => false,
    }
}

} // verus!
