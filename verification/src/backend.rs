//! The metrics-client core: building the point-in-time lookup request,
//! and turning a backend response body into an instance series — the
//! result items sorted by their numeric address label (stably, with
//! unparsable or missing labels ordered as zero), grouped by instance
//! label in sorted order, each contributing its value text when that text
//! matches the float grammar.

use crate::errors::ApiError;
use crate::floatlit::is_float_str;
use crate::numeric::{parses_to_u32, u32_val};
use vstd::prelude::*;

verus! {

/// One result item, reduced to the three labels the pipeline reads.
pub struct RawSample {
    pub instance: Option<String>,
    pub address: Option<String>,
    pub value: Option<String>,
}

/// The mathematical shape of a result item.
pub struct RawSampleV {
    pub instance: Option<Seq<char>>,
    pub address: Option<Seq<char>>,
    pub value: Option<Seq<char>>,
}

impl View for RawSample {
    type V = RawSampleV;

    open spec fn view(&self) -> RawSampleV {
        RawSampleV {
            instance: self.instance.deep_view(),
            address: self.address.deep_view(),
            value: self.value.deep_view(),
        }
    }
}

impl DeepView for RawSample {
    type V = RawSampleV;

    open spec fn deep_view(&self) -> RawSampleV {
        self.view()
    }
}

/// The sort key of an item: the numeric value of its address label, with
/// a missing or unparsable label ordered as zero.
pub open spec fn addr_key(v: RawSampleV) -> int {
    match v.address {
        Some(a) => if parses_to_u32(a) {
            u32_val(a)
        } else {
            0
        },
        None => 0,
    }
}

/// Stable insertion of one item into an address-ordered run: the new item
/// goes after every item whose key is less than or equal to its own.
pub open spec fn sorted_insert(s: Seq<RawSampleV>, x: RawSampleV) -> Seq<RawSampleV>
    decreases s.len(),
{
    if s.len() == 0 {
        seq![x]
    } else if addr_key(s.last()) <= addr_key(x) {
        s.push(x)
    } else {
        sorted_insert(s.drop_last(), x).push(s.last())
    }
}

/// The stable sort by address key: items are inserted in original order,
/// so equal keys keep their original relative order.
pub open spec fn sort_spec(s: Seq<RawSampleV>) -> Seq<RawSampleV>
    decreases s.len(),
{
    if s.len() == 0 {
        Seq::<RawSampleV>::empty()
    } else {
        sorted_insert(sort_spec(s.drop_last()), s.last())
    }
}

/// Ascending by address key.
pub open spec fn sorted_by_addr(s: Seq<RawSampleV>) -> bool {
    forall|i: int, j: int|
        0 <= i <= j < s.len() ==> addr_key(#[trigger] s[i]) <= addr_key(#[trigger] s[j])
}

spec fn key_bound(s: Seq<RawSampleV>, x: RawSampleV) -> int {
    if s.len() > 0 && addr_key(s.last()) >= addr_key(x) {
        addr_key(s.last())
    } else {
        addr_key(x)
    }
}

proof fn lemma_sorted_insert_sorted(s: Seq<RawSampleV>, x: RawSampleV)
    requires
        sorted_by_addr(s),
    ensures
        sorted_by_addr(sorted_insert(s, x)),
        sorted_insert(s, x).len() == s.len() + 1,
        forall|i: int|
            0 <= i < sorted_insert(s, x).len() ==> addr_key(#[trigger] sorted_insert(s, x)[i])
                <= key_bound(s, x),
        sorted_insert(s, x).to_multiset() == s.to_multiset().insert(x),
    decreases s.len(),
{
    broadcast use vstd::seq_lib::group_to_multiset_ensures;

    if s.len() == 0 {
        assert(s.push(x) =~= seq![x]);
        assert(sorted_insert(s, x) == s.push(x));
    } else if addr_key(s.last()) <= addr_key(x) {
        assert forall|i: int, j: int| 0 <= i <= j < s.push(x).len() implies addr_key(
            #[trigger] s.push(x)[i],
        ) <= addr_key(#[trigger] s.push(x)[j]) by {
            if j < s.len() {
                assert(addr_key(s[i]) <= addr_key(s[j]));
            } else if i < s.len() {
                assert(addr_key(s[i]) <= addr_key(s[s.len() - 1]));
            }
        }
    } else {
        let d = s.drop_last();
        assert(sorted_by_addr(d)) by {
            assert forall|i: int, j: int| 0 <= i <= j < d.len() implies addr_key(#[trigger] d[i])
                <= addr_key(#[trigger] d[j]) by {
                assert(d[i] == s[i]);
                assert(d[j] == s[j]);
            }
        }
        lemma_sorted_insert_sorted(d, x);
        let r0 = sorted_insert(d, x);
        assert(key_bound(d, x) <= addr_key(s.last())) by {
            if d.len() > 0 {
                assert(d.last() == s[s.len() - 2]);
                assert(addr_key(s[s.len() - 2]) <= addr_key(s[s.len() - 1]));
            }
        }
        assert forall|i: int, j: int| 0 <= i <= j < r0.push(s.last()).len() implies addr_key(
            #[trigger] r0.push(s.last())[i],
        ) <= addr_key(#[trigger] r0.push(s.last())[j]) by {
            if j < r0.len() {
                assert(addr_key(r0[i]) <= addr_key(r0[j]));
            } else if i < r0.len() {
                assert(addr_key(r0[i]) <= key_bound(d, x));
            }
        }
        assert(d.push(s.last()) =~= s);
        assert(s.to_multiset() == d.to_multiset().insert(s.last()));
        assert(r0.push(s.last()).to_multiset() == d.to_multiset().insert(x).insert(s.last()));
        assert(d.to_multiset().insert(x).insert(s.last()) =~= d.to_multiset().insert(
            s.last(),
        ).insert(x));
    }
}

/// The sorted item sequence is ascending by address key and holds exactly
/// the input items; with insertions made in original order, items of
/// equal key keep their original relative order.
pub proof fn lemma_sort_spec_sorted(s: Seq<RawSampleV>)
    ensures
        sorted_by_addr(sort_spec(s)),
        sort_spec(s).to_multiset() == s.to_multiset(),
    decreases s.len(),
{
    broadcast use vstd::seq_lib::group_to_multiset_ensures;

    if s.len() > 0 {
        lemma_sort_spec_sorted(s.drop_last());
        lemma_sorted_insert_sorted(sort_spec(s.drop_last()), s.last());
        assert(s.drop_last().push(s.last()) =~= s);
        assert(s.to_multiset() == s.drop_last().to_multiset().insert(s.last()));
    }
}

proof fn lemma_sorted_insert_at(s: Seq<RawSampleV>, x: RawSampleV, j: int)
    requires
        0 <= j <= s.len(),
        j == 0 || addr_key(s[j - 1]) <= addr_key(x),
        forall|idx: int| j <= idx < s.len() ==> addr_key(#[trigger] s[idx]) > addr_key(x),
    ensures
        sorted_insert(s, x) == s.insert(j, x),
    decreases s.len(),
{
    if s.len() == 0 {
        assert(s.insert(0, x) =~= seq![x]);
    } else if j == s.len() {
        assert(addr_key(s.last()) <= addr_key(x));
        assert(s.insert(j, x) =~= s.push(x));
    } else {
        assert(addr_key(s.last()) > addr_key(x));
        lemma_sorted_insert_at(s.drop_last(), x, j);
        assert(s.drop_last().insert(j, x).push(s.last()) =~= s.insert(j, x));
    }
}

fn addr_key_of(item: &RawSample) -> (k: u32)
    ensures
        k == addr_key(item@),
{
    match &item.address {
        Some(a) => match crate::numeric::parse_u32(a.as_str()) {
            Some(v) => v,
            None => 0,
        },
        None => 0,
    }
}

/// Sorts result items by their numeric address key, stably.
pub fn sort_by_address(items: Vec<RawSample>) -> (r: Vec<RawSample>)
    ensures
        r.deep_view() == sort_spec(items.deep_view()),
{
    let ghost all = items.deep_view();
    let mut rest = items;
    let mut out: Vec<RawSample> = Vec::new();
    let ghost mut c: int = 0;
    proof {
        assert(rest.deep_view() =~= all.skip(0));
        assert(all.take(0) =~= Seq::<RawSampleV>::empty());
    }
    while rest.len() > 0
        invariant
            0 <= c <= all.len(),
            rest.deep_view() == all.skip(c),
            out.deep_view() == sort_spec(all.take(c)),
        decreases rest.len(),
    {
        let ghost out_pre = out.deep_view();
        let ghost rest_pre = rest.deep_view();
        proof {
            assert(rest.deep_view().len() == rest@.len());
        }
        let item = rest.remove(0);
        let ghost x = item@;
        proof {
            assert(rest_pre.len() == all.len() - c);
            assert(c < all.len());
            assert(x == rest_pre[0]);
            assert(all.skip(c)[0] == all[c]);
            assert forall|l: int| 0 <= l < rest.deep_view().len() implies rest.deep_view()[l]
                == rest_pre[l + 1] by {
                assert(rest.deep_view()[l] == rest@[l].deep_view());
            }
            assert(rest.deep_view() =~= all.skip(c + 1));
        }
        let key = addr_key_of(&item);
        let mut j: usize = out.len();
        while j > 0 && addr_key_of(&out[j - 1]) > key
            invariant
                j <= out.deep_view().len(),
                out.deep_view().len() == out@.len(),
                key == addr_key(x),
                forall|idx: int|
                    j <= idx < out.deep_view().len() ==> addr_key(
                        #[trigger] out.deep_view()[idx],
                    ) > addr_key(x),
            decreases j,
    {
            proof {
                assert(out.deep_view()[j - 1] == out@[j - 1]@);
            }
            j = j - 1;
        }
        proof {
            if j > 0 {
                assert(out.deep_view()[j - 1] == out@[j - 1]@);
            }
        }
        out.insert(j, item);
        proof {
            assert(out.deep_view() =~= out_pre.insert(j as int, x));
            lemma_sorted_insert_at(out_pre, x, j as int);
            assert(all.take(c + 1).drop_last() =~= all.take(c));
            assert(all.take(c + 1).last() == all[c]);
            c = c + 1;
        }
    }
    proof {
        assert(all.take(all.len() as int) =~= all);
    }
    out
}

/// The instance an item belongs to: its instance label, or "unknown".
pub open spec fn inst_of(v: RawSampleV) -> Seq<char> {
    match v.instance {
        Some(i) => i,
        None => "unknown"@,
    }
}

/// An item contributes a reading only when it carries a value text that
/// matches the float grammar.
pub open spec fn keeps(v: RawSampleV) -> bool {
    v.value matches Some(s) && is_float_str(s)
}

/// The value text of a kept item.
pub open spec fn value_of(v: RawSampleV) -> Seq<char> {
    match v.value {
        Some(s) => s,
        None => Seq::<char>::empty(),
    }
}

/// First entry with the given key, if any.
pub open spec fn index_of_key<T>(g: Seq<(Seq<char>, T)>, k: Seq<char>) -> Option<int>
    decreases g.len(),
{
    if g.len() == 0 {
        None
    } else if g[0].0 == k {
        Some(0)
    } else {
        match index_of_key(g.drop_first(), k) {
            Some(i) => Some(i + 1),
            None => None,
        }
    }
}

pub proof fn lemma_index_of_key_props<T>(g: Seq<(Seq<char>, T)>, k: Seq<char>)
    ensures
        match index_of_key(g, k) {
            Some(i) => 0 <= i < g.len() && g[i].0 == k && forall|l: int|
                0 <= l < i ==> (#[trigger] g[l]).0 != k,
            None => forall|l: int| 0 <= l < g.len() ==> (#[trigger] g[l]).0 != k,
        },
    decreases g.len(),
{
    if g.len() > 0 && g[0].0 != k {
        lemma_index_of_key_props(g.drop_first(), k);
        match index_of_key(g.drop_first(), k) {
            Some(i) => {
                assert(g.drop_first()[i] == g[i + 1]);
                assert forall|l: int| 0 <= l < i + 1 implies (#[trigger] g[l]).0 != k by {
                    if l > 0 {
                        assert(g.drop_first()[l - 1] == g[l]);
                    }
                }
            },
            None => {
                assert forall|l: int| 0 <= l < g.len() implies (#[trigger] g[l]).0 != k by {
                    if l > 0 {
                        assert(g.drop_first()[l - 1] == g[l]);
                    }
                }
            },
        }
    }
}

/// Grouping of sorted items: each kept item appends its value text to the
/// entry of its instance, entries appearing in first-contribution order.
pub open spec fn grouped(s: Seq<RawSampleV>) -> Seq<(Seq<char>, Seq<Seq<char>>)>
    decreases s.len(),
{
    if s.len() == 0 {
        Seq::<(Seq<char>, Seq<Seq<char>>)>::empty()
    } else {
        let g = grouped(s.drop_last());
        let it = s.last();
        if keeps(it) {
            let k = inst_of(it);
            match index_of_key(g, k) {
                Some(i) => g.update(i, (k, g[i].1.push(value_of(it)))),
                None => g.push((k, seq![value_of(it)])),
            }
        } else {
            g
        }
    }
}

/// No two entries share a key.
pub open spec fn distinct_keys<T>(g: Seq<(Seq<char>, T)>) -> bool {
    forall|i: int, j: int| 0 <= i < j < g.len() ==> (#[trigger] g[i]).0 != (#[trigger] g[j]).0
}

pub proof fn lemma_grouped_distinct(s: Seq<RawSampleV>)
    ensures
        distinct_keys(grouped(s)),
    decreases s.len(),
{
    if s.len() > 0 {
        lemma_grouped_distinct(s.drop_last());
        let g = grouped(s.drop_last());
        let it = s.last();
        if keeps(it) {
            let k = inst_of(it);
            lemma_index_of_key_props(g, k);
            match index_of_key(g, k) {
                Some(i) => {
                    let g2 = g.update(i, (k, g[i].1.push(value_of(it))));
                    assert forall|l: int| 0 <= l < g2.len() implies (#[trigger] g2[l]).0 == g[l].0
                    by {}
                },
                None => {},
            }
        }
    }
}

/// Every reading text of every entry matches the float grammar.
pub open spec fn all_values_float(g: Seq<(Seq<char>, Seq<Seq<char>>)>) -> bool {
    forall|a: int, i: int|
        0 <= a < g.len() && 0 <= i < (#[trigger] g[a]).1.len() ==> is_float_str(
            #[trigger] g[a].1[i],
        )
}

pub proof fn lemma_grouped_values_float(s: Seq<RawSampleV>)
    ensures
        all_values_float(grouped(s)),
    decreases s.len(),
{
    if s.len() > 0 {
        lemma_grouped_values_float(s.drop_last());
        let g = grouped(s.drop_last());
        let it = s.last();
        if keeps(it) {
            let k = inst_of(it);
            lemma_index_of_key_props(g, k);
            match index_of_key(g, k) {
                Some(i) => {
                    let g2 = g.update(i, (k, g[i].1.push(value_of(it))));
                    assert forall|a: int, l: int|
                        0 <= a < g2.len() && 0 <= l < (#[trigger] g2[a]).1.len() implies is_float_str(
                        #[trigger] g2[a].1[l]) by {
                        if a != i {
                            assert(g2[a] == g[a]);
                        } else if l < g[i].1.len() {
                            assert(g2[a].1[l] == g[i].1[l]);
                        } else {
                            assert(g2[a].1[l] == value_of(it));
                        }
                    }
                },
                None => {
                    let g2 = g.push((k, seq![value_of(it)]));
                    assert forall|a: int, l: int|
                        0 <= a < g2.len() && 0 <= l < (#[trigger] g2[a]).1.len() implies is_float_str(
                        #[trigger] g2[a].1[l]) by {
                        if a < g.len() {
                            assert(g2[a] == g[a]);
                        } else {
                            assert(g2[a].1 =~= seq![value_of(it)]);
                            assert(g2[a].1[l] == value_of(it));
                        }
                    }
                },
            }
        }
    }
}

pub(crate) fn find_entry(out: &Vec<(String, Vec<String>)>, k: &String) -> (r: Option<usize>)
    ensures
        match r {
            Some(i) => i < out@.len() && index_of_key(out.deep_view(), k@) == Some(i as int),
            None => index_of_key(out.deep_view(), k@) is None,
        },
{
    let ghost g = out.deep_view();
    let mut i: usize = 0;
    while i < out.len()
        invariant
            i <= out@.len(),
            g == out.deep_view(),
            g.len() == out@.len(),
            forall|l: int| 0 <= l < i ==> (#[trigger] g[l]).0 != k@,
        decreases out@.len() - i,
    {
        proof {
            assert(g[i as int] == (out@[i as int].0@, out@[i as int].1.deep_view()));
        }
        if out[i].0.eq(k) {
            proof {
                lemma_index_of_key_props(g, k@);
                match index_of_key(g, k@) {
                    Some(f) => {
                        assert(!(f < i));
                        assert(!(f > i)) by {
                            if f > i {
                                assert(g[i as int].0 != k@);
                            }
                        }
                    },
                    None => {
                        assert(g[i as int].0 != k@);
                    },
                }
            }
            return Some(i);
        }
        i = i + 1;
    }
    proof {
        lemma_index_of_key_props(g, k@);
        match index_of_key(g, k@) {
            Some(f) => {
                assert(g[f].0 != k@);
            },
            None => {},
        }
    }
    None
}

/// Sorts the result items by address and groups them by instance:
/// the returned series is exactly `grouped(sort_spec(items))`.
pub fn group_samples(items: Vec<RawSample>) -> (r: Vec<(String, Vec<String>)>)
    ensures
        r.deep_view() == grouped(sort_spec(items.deep_view())),
{
    let sorted = sort_by_address(items);
    let ghost all = sorted.deep_view();
    let mut rest = sorted;
    let mut out: Vec<(String, Vec<String>)> = Vec::new();
    let ghost mut c: int = 0;
    proof {
        assert(rest.deep_view() =~= all.skip(0));
        assert(all.take(0) =~= Seq::<RawSampleV>::empty());
        assert(out.deep_view() =~= grouped(all.take(0)));
    }
    while rest.len() > 0
        invariant
            0 <= c <= all.len(),
            rest.deep_view() == all.skip(c),
            out.deep_view() == grouped(all.take(c)),
        decreases rest.len(),
    {
        let ghost out_pre = out.deep_view();
        let ghost rest_pre = rest.deep_view();
        proof {
            assert(rest.deep_view().len() == rest@.len());
        }
        let item = rest.remove(0);
        let ghost x = item@;
        proof {
            assert(rest_pre.len() == all.len() - c);
            assert(c < all.len());
            assert(x == rest_pre[0]);
            assert(all.skip(c)[0] == all[c]);
            assert forall|l: int| 0 <= l < rest.deep_view().len() implies rest.deep_view()[l]
                == rest_pre[l + 1] by {
                assert(rest.deep_view()[l] == rest@[l].deep_view());
            }
            assert(rest.deep_view() =~= all.skip(c + 1));
            assert(all.take(c + 1).drop_last() =~= all.take(c));
            assert(all.take(c + 1).last() == all[c]);
        }
        let keep = match &item.value {
            Some(s) => crate::floatlit::is_float_literal(s.as_str()),
            None => false,
        };
        if keep {
            let k: String = match item.instance {
                Some(i) => i,
                None => String::from_str("unknown"),
            };
            let v: String = match item.value {
                Some(s) => s,
                None => String::new(),
            };
            proof {
                assert(k@ == inst_of(x));
                assert(v@ == value_of(x));
            }
            let ghost kv = k@;
            let ghost vv = v@;
            match find_entry(&out, &k) {
                Some(i) => {
                    let (k0, mut vs) = out.remove(i);
                    let ghost vs_pre = vs.deep_view();
                    vs.push(v);
                    proof {
                        assert(vs.deep_view() =~= vs_pre.push(vv));
                    }
                    out.insert(i, (k0, vs));
                    proof {
                        lemma_index_of_key_props(out_pre, kv);
                        assert(out.deep_view() =~= out_pre.update(
                            i as int,
                            (out_pre[i as int].0, out_pre[i as int].1.push(vv)),
                        ));
                        assert(out.deep_view() =~= grouped(all.take(c + 1)));
                    }
                },
                None => {
                    let mut vs: Vec<String> = Vec::new();
                    vs.push(v);
                    proof {
                        assert(vs.deep_view() =~= seq![vv]);
                    }
                    out.push((k, vs));
                    proof {
                        assert(out.deep_view() =~= out_pre.push((kv, seq![vv])));
                        assert(out.deep_view() =~= grouped(all.take(c + 1)));
                    }
                },
            }
        }
        proof {
            c = c + 1;
        }
    }
    proof {
        assert(all.take(all.len() as int) =~= all);
    }
    out
}

#[verifier::external_type_specification]
#[verifier::external_body]
pub struct ExJsonValue(serde_json::Value);

/// Relies on serde_json::Value::get with a string key: member lookup on
/// an object, `None` on anything else.
#[verifier::external_body]
fn json_get_key<'a>(v: &'a serde_json::Value, key: &str) -> (r: Option<&'a serde_json::Value>) {
    v.get(key)
}

/// Relies on serde_json::Value::get with a numeric index: element lookup
/// on an array, `None` on anything else.
#[verifier::external_body]
fn json_get_index<'a>(v: &'a serde_json::Value, i: usize) -> (r: Option<&'a serde_json::Value>) {
    v.get(i)
}

/// Relies on serde_json::Value::as_str.
#[verifier::external_body]
fn json_as_str<'a>(v: &'a serde_json::Value) -> (r: Option<&'a str>) {
    v.as_str()
}

fn get_str_field(v: &serde_json::Value, key: &str) -> (r: Option<String>) {
    match json_get_key(v, key) {
        Some(f) => match json_as_str(f) {
            Some(s) => Some(s.to_owned()),
            None => None,
        },
        None => None,
    }
}

fn sample_of_item(item: &serde_json::Value) -> (r: RawSample) {
    let (instance, address) = match json_get_key(item, "metric") {
        Some(m) => (get_str_field(m, "instance"), get_str_field(m, "address")),
        None => (None, None),
    };
    let value = match json_get_key(item, "value") {
        Some(pair) => match json_get_index(pair, 1) {
            Some(x) => match json_as_str(x) {
                Some(s) => Some(s.to_owned()),
                None => None,
            },
            None => None,
        },
        None => None,
    };
    RawSample { instance, address, value }
}

/// What a backend response body decodes to: the items of its
/// `data.result` array, each reduced to its three labels, or nothing when
/// the text is not JSON or lacks that array. The JSON parser is
/// deterministic and the per-item reduction is this library's
/// `sample_of_item`, so the outcome depends on the body text alone.
pub uninterp spec fn samples_of(body: Seq<char>) -> Option<Seq<RawSampleV>>;

/// Relies on serde_json::from_str, Value::get and Value::as_array: parses
/// the body and hands out the items of its `data.result` array, each
/// reduced by the verified `sample_of_item`.
#[verifier::external_body]
fn extract_raw(body: &str) -> (r: Option<Vec<RawSample>>)
    ensures
        r matches Some(v) ==> samples_of(body@) == Some(v.deep_view()),
        r is None ==> samples_of(body@) is None,
{
    let root: serde_json::Value = match serde_json::from_str(body) {
        Ok(v) => v,
        Err(_) => return None,
    };
    let arr = root.get("data")?.get("result")?.as_array()?;
    Some(arr.iter().map(sample_of_item).collect())
}

/// Turns one backend response body into an instance series. A body that
/// does not decode — unparsable text, or text without the expected result
/// array — is the backend-unreachable error, never a bad request, and
/// only such a body is an error. A decoded body yields exactly the
/// address-sorted, instance-grouped reduction of its items, with no two
/// entries sharing an instance and every kept reading matching the float
/// grammar.
pub fn parse_response(body: &str) -> (r: Result<Vec<(String, Vec<String>)>, ApiError>)
    ensures
        r matches Err(e) ==> e == ApiError::BackendUnreachable,
        r is Err <==> samples_of(body@) is None,
        samples_of(body@) matches Some(items) ==> r matches Ok(series) && series.deep_view()
            == grouped(sort_spec(items)),
        r matches Ok(series) ==> distinct_keys(series.deep_view()) && all_values_float(
            series.deep_view(),
        ),
{
    let items = match extract_raw(body) {
        Some(v) => v,
        None => return Err(ApiError::BackendUnreachable),
    };
    let ghost w = items.deep_view();
    let series = group_samples(items);
    proof {
        lemma_grouped_distinct(sort_spec(w));
        lemma_grouped_values_float(sort_spec(w));
        assert(series.deep_view() == grouped(sort_spec(w)));
    }
    Ok(series)
}

/// The absolute timestamp rendered in RFC 3339 at seconds precision with
/// the UTC designator.
pub uninterp spec fn rfc3339_utc_of(epoch: int) -> Seq<char>;

/// Relies on chrono: `DateTime::from_timestamp` accepts every in-range
/// second count — the stated range lies well inside the representable
/// years — and `to_rfc3339_opts` with seconds precision and the UTC
/// designator renders the instant from its value alone.
#[verifier::external_body]
fn format_rfc3339_utc(epoch: i64) -> (r: Option<String>)
    ensures
        r matches Some(s) ==> s@ == rfc3339_utc_of(epoch as int),
        -8_000_000_000_000 <= epoch <= 8_000_000_000_000 ==> r is Some,
{
    chrono::DateTime::<chrono::Utc>::from_timestamp(epoch, 0).map(
        |dt| dt.to_rfc3339_opts(chrono::SecondsFormat::Secs, true),
    )
}

/// The fixed matcher expression with the target pattern substituted,
/// verbatim and unescaped.
pub open spec fn query_expr_of(target: Seq<char>) -> Seq<char> {
    "last_over_time({__name__=\"energy\",instance=~\""@ + target + "\"}[10m])"@
}

/// Builds the matcher expression for a target pattern.
pub fn build_query_expr(target: &str) -> (r: String)
    ensures
        r@ == query_expr_of(target@),
{
    let mut s = String::from_str("last_over_time({__name__=\"energy\",instance=~\"");
    s.append(target);
    s.append("\"}[10m])");
    proof {
        assert(s@ =~= query_expr_of(target@));
    }
    s
}

/// The two wire parameters of one point-in-time lookup.
pub struct BackendRequest {
    pub query: String,
    pub time: String,
}

/// Builds the wire parameters of one lookup: the matcher expression and
/// the RFC 3339 timestamp of the instant. Fails only when the instant
/// cannot be represented by the calendar library.
pub fn build_request(target: &str, instant: i64) -> (r: Option<BackendRequest>)
    ensures
        r matches Some(b) ==> b.query@ == query_expr_of(target@) && b.time@ == rfc3339_utc_of(
            instant as int,
        ),
        -8_000_000_000_000 <= instant <= 8_000_000_000_000 ==> r is Some,
{
    match format_rfc3339_utc(instant) {
        Some(t) => Some(BackendRequest { query: build_query_expr(target), time: t }),
        None => None,
    }
}

} // verus!
