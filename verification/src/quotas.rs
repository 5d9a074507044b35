//! The contexts' declared ceilings, as the deployment states them. A
//! declaration that is not exactly right is refused: one that silently came
//! to nothing would leave a context unbounded.
use crate::names::NameMap;
use crate::state::ContextQuota;
use crate::text;
use crate::text::{is_blank, joined, same};
use std::collections::BTreeMap;
use vstd::prelude::*;

verus! {

/// A declaration as it was read: per context, the named fields.
pub type QuotaRow = (String, Vec<(String, Option<u64>)>);

pub type FieldView = (Seq<char>, Option<u64>);

pub type RowView = (Seq<char>, Seq<FieldView>);

pub open spec fn field_views(fields: Seq<(String, Option<u64>)>) -> Seq<FieldView> {
    fields.map_values(|f: (String, Option<u64>)| (f.0@, f.1))
}

pub open spec fn row_views(rows: Seq<QuotaRow>) -> Seq<RowView> {
    rows.map_values(|r: QuotaRow| (r.0@, field_views(r.1@)))
}

/// What `serde_json` reads from a text as an object of objects of optional
/// numbers, in the order of their names; `None` where it refuses the text.
pub uninterp spec fn json_rows(raw: Seq<char>) -> Option<Seq<RowView>>;

/// The error of `serde_json`.
#[verifier::external_type_specification]
#[verifier::external_body]
pub struct ExJsonError(serde_json::Error);

/// Reads an object of objects of optional numbers: calls
/// `serde_json::from_str` for a map of maps. What it reads is only named;
/// that it depends on the text alone is what is trusted.
#[verifier::external_body]
fn read_rows(raw: &str) -> (res: Result<Vec<QuotaRow>, serde_json::Error>)
    ensures
        match res {
            Ok(rows) => json_rows(raw@) == Some(row_views(rows@)),
            Err(_) => json_rows(raw@) is None,
        },
{
    let read: BTreeMap<String, BTreeMap<String, Option<u64>>> = serde_json::from_str(raw)?;
    Ok(read.into_iter().map(|(name, fields)| (name, fields.into_iter().collect())).collect())
}

/// Why a declaration was refused.
pub enum QuotaFault {
    /// It is there, and blank.
    Blank,
    /// It is not an object of objects of numbers.
    Malformed,
    /// A context has a field of another name.
    UnknownField { context: String, field: String },
    /// A context has a ceiling of zero.
    ZeroCeiling { context: String },
    /// A context has no ceiling at all.
    NoCeiling { context: String },
}

/// The field's name is one of the two.
pub open spec fn is_known_field(field: Seq<char>) -> bool {
    field == "storage_bytes"@ || field == "cache_bytes"@
}

/// The value that the last of the first `n` fields of this name has.
pub open spec fn value_upto(fields: Seq<FieldView>, name: Seq<char>, n: nat) -> Option<u64>
    decreases n,
{
    if n == 0 {
        None
    } else if fields[n - 1].0 == name {
        fields[n - 1].1
    } else {
        value_upto(fields, name, (n - 1) as nat)
    }
}

/// What a row declares.
pub open spec fn declared(fields: Seq<FieldView>) -> ContextQuota {
    ContextQuota {
        storage_bytes: value_upto(fields, "storage_bytes"@, fields.len()),
        cache_bytes: value_upto(fields, "cache_bytes"@, fields.len()),
    }
}

/// The first field of another name stands at `i`.
pub open spec fn first_unknown(fields: Seq<FieldView>, i: int) -> bool {
    &&& 0 <= i < fields.len() && !is_known_field(fields[i].0)
    &&& forall|j: int| 0 <= j < i ==> is_known_field((#[trigger] fields[j]).0)
}

pub open spec fn has_unknown(fields: Seq<FieldView>) -> bool {
    exists|i: int| first_unknown(fields, i)
}

/// A row declares at least one ceiling, none of them zero, and nothing else.
pub open spec fn is_sound(fields: Seq<FieldView>) -> bool {
    let quota = declared(fields);
    &&& !has_unknown(fields)
    &&& quota.storage_bytes != Some(0u64) && quota.cache_bytes != Some(0u64)
    &&& quota.storage_bytes is Some || quota.cache_bytes is Some
}

/// Why a row is refused.
pub open spec fn fault_of(row: RowView, fault: QuotaFault) -> bool {
    let quota = declared(row.1);
    if has_unknown(row.1) {
        let i = choose|i: int| first_unknown(row.1, i);
        fault matches QuotaFault::UnknownField { context, field } && context@ == row.0 && field@ == row.1[i].0
    } else if quota.storage_bytes == Some(0u64) || quota.cache_bytes == Some(0u64) {
        fault matches QuotaFault::ZeroCeiling { context } && context@ == row.0
    } else {
        fault matches QuotaFault::NoCeiling { context } && context@ == row.0
    }
}

/// The first row that is refused stands at `i`.
pub open spec fn first_refused(rows: Seq<RowView>, i: int) -> bool {
    &&& 0 <= i < rows.len() && !is_sound(rows[i].1)
    &&& forall|j: int| 0 <= j < i ==> is_sound((#[trigger] rows[j]).1)
}

/// The ceilings of the first `n` rows.
pub open spec fn quotas_upto(rows: Seq<RowView>, n: nat) -> Map<Seq<char>, ContextQuota>
    decreases n,
{
    if n == 0 {
        Map::empty()
    } else {
        quotas_upto(rows, (n - 1) as nat).insert(rows[n - 1].0, declared(rows[n - 1].1))
    }
}

/// What rows come to: their ceilings where every row is sound, else the
/// first refused row's fault.
pub open spec fn rows_come_to(rows: Seq<RowView>, res: Result<NameMap<ContextQuota>, QuotaFault>) -> bool {
    match res {
        Ok(quotas) => {
            &&& quotas.wf()
            &&& quotas@ == quotas_upto(rows, rows.len())
            &&& forall|i: int| 0 <= i < rows.len() ==> is_sound((#[trigger] rows[i]).1)
        },
        Err(fault) => exists|i: int| #[trigger] first_refused(rows, i) && fault_of(rows[i], fault),
    }
}

fn field_value(fields: &Vec<(String, Option<u64>)>, name: &str) -> (res: Option<u64>)
    ensures
        res == value_upto(field_views(fields@), name@, fields.len() as nat),
{
    let ghost all = field_views(fields@);
    let mut found: Option<u64> = None;
    let mut i: usize = 0;
    while i < fields.len()
        invariant
            i <= fields.len(),
            all == field_views(fields@),
            found == value_upto(all, name@, i as nat),
        decreases fields.len() - i,
    {
        assert(all[i as int] == (fields@[i as int].0@, fields@[i as int].1));
        if same(fields[i].0.as_str(), name) {
            found = fields[i].1;
        }
        i = i + 1;
    }
    found
}

fn unknown_field(fields: &Vec<(String, Option<u64>)>) -> (res: Option<usize>)
    ensures
        match res {
            Some(i) => first_unknown(field_views(fields@), i as int),
            None => !has_unknown(field_views(fields@)),
        },
{
    let ghost all = field_views(fields@);
    let mut i: usize = 0;
    while i < fields.len()
        invariant
            i <= fields.len(),
            all == field_views(fields@),
            forall|j: int| 0 <= j < i ==> is_known_field((#[trigger] all[j]).0),
        decreases fields.len() - i,
    {
        assert(all[i as int] == (fields@[i as int].0@, fields@[i as int].1));
        let name = fields[i].0.as_str();
        if !same(name, "storage_bytes") && !same(name, "cache_bytes") {
            return Some(i);
        }
        i = i + 1;
    }
    assert forall|k: int| !first_unknown(all, k) by {
        if first_unknown(all, k) {
            assert(is_known_field(all[k].0));
        }
    }
    None
}

/// What a row declares, or why it is refused.
fn quota_of(row: &QuotaRow) -> (res: Result<ContextQuota, QuotaFault>)
    ensures
        match res {
            Ok(quota) => is_sound(field_views(row.1@)) && quota == declared(field_views(row.1@)),
            Err(fault) => !is_sound(field_views(row.1@)) && fault_of((row.0@, field_views(row.1@)), fault),
        },
{
    let ghost all = field_views(row.1@);
    if let Some(i) = unknown_field(&row.1) {
        let field = row.1[i].0.clone();
        proof {
            let k = choose|k: int| first_unknown(all, k);
            assert(first_unknown(all, k));
            assert(!is_known_field(all[k].0) && !is_known_field(all[i as int].0));
            assert(k == i);
            assert(all[i as int].0 == field@);
        }
        return Err(QuotaFault::UnknownField { context: row.0.clone(), field });
    }
    let storage_bytes = field_value(&row.1, "storage_bytes");
    let cache_bytes = field_value(&row.1, "cache_bytes");
    if let Some(n) = storage_bytes {
        if n == 0 {
            return Err(QuotaFault::ZeroCeiling { context: row.0.clone() });
        }
    }
    if let Some(n) = cache_bytes {
        if n == 0 {
            return Err(QuotaFault::ZeroCeiling { context: row.0.clone() });
        }
    }
    if storage_bytes.is_none() && cache_bytes.is_none() {
        return Err(QuotaFault::NoCeiling { context: row.0.clone() });
    }
    Ok(ContextQuota { storage_bytes, cache_bytes })
}

/// The ceilings that rows declare.
pub fn quotas_of_rows(rows: &Vec<QuotaRow>) -> (res: Result<NameMap<ContextQuota>, QuotaFault>)
    ensures
        rows_come_to(row_views(rows@), res),
{
    let ghost all = row_views(rows@);
    let mut quotas: NameMap<ContextQuota> = NameMap::new();
    let mut i: usize = 0;
    while i < rows.len()
        invariant
            i <= rows.len(),
            all == row_views(rows@),
            quotas.wf(),
            quotas@ == quotas_upto(all, i as nat),
            forall|j: int| 0 <= j < i ==> is_sound((#[trigger] all[j]).1),
        decreases rows.len() - i,
    {
        assert(all[i as int] == (rows@[i as int].0@, field_views(rows@[i as int].1@)));
        match quota_of(&rows[i]) {
            Err(fault) => {
                assert(first_refused(all, i as int));
                return Err(fault);
            },
            Ok(quota) => {
                quotas.insert(rows[i].0.clone(), quota);
            },
        }
        i = i + 1;
    }
    Ok(quotas)
}

/// The ceilings that a deployment declares: none where it declares nothing.
pub fn parse_context_quotas(raw: Option<&str>) -> (res: Result<NameMap<ContextQuota>, QuotaFault>)
    ensures
        match raw {
            None => res matches Ok(quotas) && quotas.wf() && quotas@ == Map::<Seq<char>, ContextQuota>::empty(),
            Some(s) => if text::blank(s@) {
                res == Err::<NameMap<ContextQuota>, QuotaFault>(QuotaFault::Blank)
            } else {
                match json_rows(s@) {
                    None => res == Err::<NameMap<ContextQuota>, QuotaFault>(QuotaFault::Malformed),
                    Some(rows) => rows_come_to(rows, res),
                }
            },
        },
{
    match raw {
        None => Ok(NameMap::new()),
        Some(s) => {
            if is_blank(s) {
                return Err(QuotaFault::Blank);
            }
            match read_rows(s) {
                Err(_) => Err(QuotaFault::Malformed),
                Ok(rows) => quotas_of_rows(&rows),
            }
        },
    }
}

/// Whatever was declared and accepted bounds its context: every quota has a
/// ceiling, and none is zero.
pub proof fn accepted_quotas_are_armed(rows: Seq<RowView>, n: nat, name: Seq<char>)
    requires
        n <= rows.len(),
        forall|i: int| 0 <= i < rows.len() ==> is_sound((#[trigger] rows[i]).1),
        quotas_upto(rows, n).contains_key(name),
    ensures
        ({
            let quota = quotas_upto(rows, n)[name];
            &&& quota.storage_bytes is Some || quota.cache_bytes is Some
            &&& quota.storage_bytes != Some(0u64) && quota.cache_bytes != Some(0u64)
        }),
    decreases n,
{
    if n > 0 {
        assert(is_sound(rows[n - 1].1));
        if rows[n - 1].0 != name {
            accepted_quotas_are_armed(rows, (n - 1) as nat, name);
        }
    }
}

/// The decimal digit of a value below ten.
pub open spec fn digit(n: nat) -> char {
    (48 + n) as char
}

/// A number in decimal digits, without leading zeros.
pub open spec fn decimal(n: nat) -> Seq<char>
    decreases n,
{
    if n < 10 {
        seq![digit(n)]
    } else {
        decimal(n / 10).push(digit(n % 10))
    }
}

/// A number in decimal digits, without leading zeros.
pub fn decimal_text(n: u64) -> (res: String)
    ensures
        res@ == decimal(n as nat),
    decreases n,
{
    let last: char = (48 + (n % 10) as u8) as char;
    let mut res = if n < 10 {
        String::new()
    } else {
        decimal_text(n / 10)
    };
    res.push(last);
    assert(res@ =~= decimal(n as nat));
    res
}

/// What the refusal of a write at the storage ceiling says.
pub open spec fn quota_message_of(name: Seq<char>, used: u64, ceiling: u64) -> Seq<char> {
    "the context '"@ + name + "' is at its storage quota: "@ + decimal(used as nat) + " of "@ + decimal(ceiling as nat)
        + " bytes are in use; retract or compact to make room"@
}

/// What the refusal of a write at the storage ceiling says.
pub fn storage_quota_message(name: &str, used: u64, ceiling: u64) -> (res: String)
    ensures
        res@ == quota_message_of(name@, used, ceiling),
{
    let who = joined("the context '", name);
    let what = joined(who.as_str(), "' is at its storage quota: ");
    let holds = joined(what.as_str(), decimal_text(used).as_str());
    let of = joined(holds.as_str(), " of ");
    let may = joined(of.as_str(), decimal_text(ceiling).as_str());
    joined(may.as_str(), " bytes are in use; retract or compact to make room")
}

/// A row's value for a field is that of its last field of this name; without
/// one it has none.
pub proof fn the_last_field_of_a_name_counts(fields: Seq<FieldView>, name: Seq<char>, n: nat, i: int)
    requires
        n <= fields.len(),
    ensures
        0 <= i < n && fields[i].0 == name && (forall|j: int| i < j < n ==> (#[trigger] fields[j]).0 != name) ==> value_upto(
            fields,
            name,
            n,
        ) == fields[i].1,
        (forall|j: int| 0 <= j < n ==> (#[trigger] fields[j]).0 != name) ==> value_upto(fields, name, n) is None,
    decreases n,
{
    if n > 0 {
        the_last_field_of_a_name_counts(fields, name, (n - 1) as nat, i);
        if 0 <= i < n - 1 && (forall|j: int| i < j < n ==> (#[trigger] fields[j]).0 != name) {
            assert(fields[n - 1].0 != name);
        }
        if forall|j: int| 0 <= j < n ==> (#[trigger] fields[j]).0 != name {
            assert(fields[n - 1].0 != name);
        }
    }
}

/// A row declares the two ceilings by their own fields, and is refused for a
/// field of any other name, for a ceiling of zero, or for no ceiling at all,
/// in this order.
pub proof fn rows_are_refused_for_their_first_fault(row: RowView, fault: QuotaFault, i: int)
    ensures
        ({
            let quota = declared(row.1);
            let unknown = exists|k: int|
                0 <= k < row.1.len() && (#[trigger] row.1[k]).0 != "storage_bytes"@ && row.1[k].0 != "cache_bytes"@;
            let zero = quota.storage_bytes == Some(0u64) || quota.cache_bytes == Some(0u64);
            let none = quota.storage_bytes is None && quota.cache_bytes is None;
            &&& quota.storage_bytes == value_upto(row.1, "storage_bytes"@, row.1.len())
            &&& quota.cache_bytes == value_upto(row.1, "cache_bytes"@, row.1.len())
            &&& is_sound(row.1) <==> !unknown && !zero && !none
            &&& fault_of(row, fault) && unknown ==> fault is UnknownField
            &&& fault_of(row, fault) && !unknown && zero ==> fault is ZeroCeiling
            &&& fault_of(row, fault) && !unknown && !zero ==> fault is NoCeiling
            &&& fault_of(row, fault) ==> match fault {
                QuotaFault::UnknownField { context, field } => context@ == row.0 && (0 <= i < row.1.len() && row.1[i].0
                    != "storage_bytes"@ && row.1[i].0 != "cache_bytes"@ && (forall|k: int|
                    0 <= k < i ==> (#[trigger] row.1[k]).0 == "storage_bytes"@ || row.1[k].0 == "cache_bytes"@) ==> field@
                    == row.1[i].0),
                QuotaFault::ZeroCeiling { context } => context@ == row.0,
                QuotaFault::NoCeiling { context } => context@ == row.0,
                _ => false,
            }
        }),
{
    let unknown = exists|k: int|
        0 <= k < row.1.len() && (#[trigger] row.1[k]).0 != "storage_bytes"@ && row.1[k].0 != "cache_bytes"@;
    if unknown {
        unknown_is_found(row.1, row.1.len());
    }
    if has_unknown(row.1) {
        let a = choose|a: int| first_unknown(row.1, a);
        assert(first_unknown(row.1, a));
        assert(row.1[a].0 != "storage_bytes"@ && row.1[a].0 != "cache_bytes"@);
        if 0 <= i < row.1.len() && row.1[i].0 != "storage_bytes"@ && row.1[i].0 != "cache_bytes"@ && (forall|k: int|
            0 <= k < i ==> (#[trigger] row.1[k]).0 == "storage_bytes"@ || row.1[k].0 == "cache_bytes"@) {
            if a < i {
                assert(row.1[a].0 == "storage_bytes"@ || row.1[a].0 == "cache_bytes"@);
            } else if i < a {
                assert(is_known_field(row.1[i].0));
            }
        }
    }
}

proof fn unknown_is_found(fields: Seq<FieldView>, n: nat)
    requires
        n <= fields.len(),
        exists|k: int| 0 <= k < n && (#[trigger] fields[k]).0 != "storage_bytes"@ && fields[k].0 != "cache_bytes"@,
    ensures
        has_unknown(fields),
    decreases n,
{
    if exists|k: int| 0 <= k < n - 1 && (#[trigger] fields[k]).0 != "storage_bytes"@ && fields[k].0 != "cache_bytes"@ {
        unknown_is_found(fields, (n - 1) as nat);
    } else {
        let k = choose|k: int| 0 <= k < n && (#[trigger] fields[k]).0 != "storage_bytes"@ && fields[k].0 != "cache_bytes"@;
        assert(first_unknown(fields, k));
    }
}

/// Rows give every context that they name the ceilings of its last row, and
/// no other context any.
pub proof fn every_row_sets_its_context(rows: Seq<RowView>, n: nat, i: int, name: Seq<char>)
    requires
        n <= rows.len(),
    ensures
        0 <= i < n && (forall|j: int| i < j < n ==> (#[trigger] rows[j]).0 != rows[i].0) ==> quotas_upto(rows, n).contains_key(
            rows[i].0,
        ) && quotas_upto(rows, n)[rows[i].0] == declared(rows[i].1),
        (forall|j: int| 0 <= j < n ==> (#[trigger] rows[j]).0 != name) ==> !quotas_upto(rows, n).contains_key(name),
    decreases n,
{
    if n > 0 {
        every_row_sets_its_context(rows, (n - 1) as nat, i, name);
        if 0 <= i < n - 1 && (forall|j: int| i < j < n ==> (#[trigger] rows[j]).0 != rows[i].0) {
            assert(rows[n - 1].0 != rows[i].0);
        }
        if forall|j: int| 0 <= j < n ==> (#[trigger] rows[j]).0 != name {
            assert(rows[n - 1].0 != name);
        }
    }
}

/// Decimal digits read from the left: another one at the end stands for ten
/// times what stood there before and itself. There is no leading zero.
pub proof fn decimals_read_from_the_left(n: nat, d: nat)
    requires
        d < 10,
    ensures
        decimal(d) == seq![('0' as int + d) as char],
        n > 0 ==> decimal(10 * n + d) == decimal(n).push(('0' as int + d) as char),
        n > 0 ==> decimal(n).len() > 0 && decimal(n)[0] != '0',
    decreases n,
{
    if n > 0 {
        assert((10 * n + d) / 10 == n && (10 * n + d) % 10 == d);
        if n >= 10 {
            decimals_read_from_the_left(n / 10, n % 10);
        }
    }
}

/// The refusal names the context first, then what it uses, then what it may
/// use.
pub proof fn refusals_name_use_and_ceiling(name: Seq<char>, used: u64, ceiling: u64)
    ensures
        ({
            let text = quota_message_of(name, used, ceiling);
            let a = "the context '"@.len() as int;
            let b = a + name.len() + "' is at its storage quota: "@.len();
            let c = b + decimal(used as nat).len() + " of "@.len();
            &&& text.subrange(a, a + name.len()) == name
            &&& text.subrange(b, b + decimal(used as nat).len()) == decimal(used as nat)
            &&& text.subrange(c, c + decimal(ceiling as nat).len()) == decimal(ceiling as nat)
        }),
{
    let text = quota_message_of(name, used, ceiling);
    let a = "the context '"@.len() as int;
    let b = a + name.len() + "' is at its storage quota: "@.len();
    let c = b + decimal(used as nat).len() + " of "@.len();
    assert(text.subrange(a, a + name.len()) =~= name);
    assert(text.subrange(b, b + decimal(used as nat).len()) =~= decimal(used as nat));
    assert(text.subrange(c, c + decimal(ceiling as nat).len()) =~= decimal(ceiling as nat));
}

} // verus!
