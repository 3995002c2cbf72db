//! Enrichment data derived from a raw access record: the parsed user-agent
//! descriptor and the geolocation descriptor, with the city-name selection
//! rule.

use vstd::prelude::*;
use vstd::string::StrSliceExecFns;
use vstd::string::StringExecFns;
use crate::access::view_of_opt_string;
use crate::wire::{dec_digits, json_string, opt_string_json, push_dec_u64,
    push_json_string, push_opt_string};

verus! {

/// A decimal digit.
pub open spec fn is_digit(c: char) -> bool {
    ('0' as u32) <= (c as u32) && (c as u32) <= ('9' as u32)
}

/// Text acceptable as a JSON number for a coordinate: an optional minus,
/// an integer part without a spurious leading zero, and an optional
/// fractional part.
pub open spec fn number_split_at(u: Seq<char>, k: int) -> bool {
    &&& 1 <= k <= u.len()
    &&& (forall|i: int| 0 <= i < k ==> is_digit(u[i]))
    &&& (u[0] != '0' || k == 1)
    &&& (k < u.len() ==> u[k] == '.' && k + 1 <= u.len() - 1 && (forall|i: int|
        k < i < u.len() ==> is_digit(u[i])))
}

/// The number's text without its sign.
pub open spec fn unsigned_part(t: Seq<char>) -> Seq<char> {
    if t.len() > 0 && t[0] == '-' {
        t.skip(1)
    } else {
        t
    }
}

pub open spec fn is_plain_number(t: Seq<char>) -> bool {
    exists|k: int| number_split_at(unsigned_part(t), k)
}

/// Result of user-agent parsing, as plain strings.
#[derive(Clone, Debug)]
pub struct UserDevice {
    pub device_family: String,
    pub device_brand: Option<String>,
    pub device_model: Option<String>,
    pub os_family: String,
    pub os_major: Option<String>,
    pub os_minor: Option<String>,
    pub os_patch: Option<String>,
    pub os_patch_minor: Option<String>,
    pub agent_family: String,
    pub agent_major: Option<String>,
    pub agent_minor: Option<String>,
}

/// A user's geolocation, as plain values.
///
/// The coordinates are carried as the decimal text the backing database
/// reported, since this core holds no floating-point values.
#[derive(Clone, Debug)]
pub struct UserGeolocation {
    pub city: Option<String>,
    pub continent: Option<String>,
    pub country: Option<String>,
    pub latitude: Option<String>,
    pub longitude: Option<String>,
    pub accuracy_radius: Option<u16>,
    pub time_zone: Option<String>,
}

/// The mathematical value of a [`UserDevice`].
pub struct DeviceView {
    pub device_family: Seq<char>,
    pub device_brand: Option<Seq<char>>,
    pub device_model: Option<Seq<char>>,
    pub os_family: Seq<char>,
    pub os_major: Option<Seq<char>>,
    pub os_minor: Option<Seq<char>>,
    pub os_patch: Option<Seq<char>>,
    pub os_patch_minor: Option<Seq<char>>,
    pub agent_family: Seq<char>,
    pub agent_major: Option<Seq<char>>,
    pub agent_minor: Option<Seq<char>>,
}

impl View for UserDevice {
    type V = DeviceView;

    open spec fn view(&self) -> DeviceView {
        DeviceView {
            device_family: self.device_family@,
            device_brand: view_of_opt_string(self.device_brand),
            device_model: view_of_opt_string(self.device_model),
            os_family: self.os_family@,
            os_major: view_of_opt_string(self.os_major),
            os_minor: view_of_opt_string(self.os_minor),
            os_patch: view_of_opt_string(self.os_patch),
            os_patch_minor: view_of_opt_string(self.os_patch_minor),
            agent_family: self.agent_family@,
            agent_major: view_of_opt_string(self.agent_major),
            agent_minor: view_of_opt_string(self.agent_minor),
        }
    }
}

/// The mathematical value of a [`UserGeolocation`].
pub struct GeoView {
    pub city: Option<Seq<char>>,
    pub continent: Option<Seq<char>>,
    pub country: Option<Seq<char>>,
    pub latitude: Option<Seq<char>>,
    pub longitude: Option<Seq<char>>,
    pub accuracy_radius: Option<u16>,
    pub time_zone: Option<Seq<char>>,
}

impl View for UserGeolocation {
    type V = GeoView;

    open spec fn view(&self) -> GeoView {
        GeoView {
            city: view_of_opt_string(self.city),
            continent: view_of_opt_string(self.continent),
            country: view_of_opt_string(self.country),
            latitude: view_of_opt_string(self.latitude),
            longitude: view_of_opt_string(self.longitude),
            accuracy_radius: self.accuracy_radius,
            time_zone: view_of_opt_string(self.time_zone),
        }
    }
}

/// Whether two optional strings hold the same characters.
pub(crate) fn opt_string_eq(a: &Option<String>, b: &Option<String>) -> (r: bool)
    ensures
        r == (view_of_opt_string(*a) == view_of_opt_string(*b)),
{
    match a {
        Some(x) => match b {
            Some(y) => *x == *y,
            None => false,
        },
        None => match b {
            Some(_) => false,
            None => true,
        },
    }
}

/// Whether two device descriptors are equal in every field.
pub fn device_eq(a: &UserDevice, b: &UserDevice) -> (r: bool)
    ensures
        r == (a@ == b@),
{
    let r = a.device_family == b.device_family && opt_string_eq(&a.device_brand, &b.device_brand)
        && opt_string_eq(&a.device_model, &b.device_model) && a.os_family == b.os_family
        && opt_string_eq(&a.os_major, &b.os_major) && opt_string_eq(&a.os_minor, &b.os_minor)
        && opt_string_eq(&a.os_patch, &b.os_patch) && opt_string_eq(
        &a.os_patch_minor,
        &b.os_patch_minor,
    ) && a.agent_family == b.agent_family && opt_string_eq(&a.agent_major, &b.agent_major)
        && opt_string_eq(&a.agent_minor, &b.agent_minor);
    r
}

/// Whether two geolocation descriptors are equal in every field.
pub fn geolocation_eq(a: &UserGeolocation, b: &UserGeolocation) -> (r: bool)
    ensures
        r == (a@ == b@),
{
    let radius_eq = match (a.accuracy_radius, b.accuracy_radius) {
        (Some(x), Some(y)) => x == y,
        (None, None) => true,
        _ => false,
    };
    let r = opt_string_eq(&a.city, &b.city) && opt_string_eq(&a.continent, &b.continent)
        && opt_string_eq(&a.country, &b.country) && opt_string_eq(&a.latitude, &b.latitude)
        && opt_string_eq(&a.longitude, &b.longitude) && radius_eq && opt_string_eq(
        &a.time_zone,
        &b.time_zone,
    );
    r
}

/// Only the first dot can split a number into integer and fractional
/// part: everything the grammar demands is then demanded at that split.
proof fn lemma_first_dot_decides(u: Seq<char>, p: int)
    requires
        0 <= p <= u.len(),
        forall|i: int| 0 <= i < p ==> u[i] != '.',
        p < u.len() ==> u[p] == '.',
    ensures
        (exists|k: int| number_split_at(u, k)) ==> number_split_at(u, p),
{
    if exists|k: int| number_split_at(u, k) {
        let k = choose|k: int| number_split_at(u, k);
        assert(!is_digit('.'));
        if k < p {
            assert(u[k] == '.');
            assert(u[k] != '.');
        } else if k > p {
            assert(p < u.len());
            assert(is_digit(u[p]));
        }
        assert(k == p);
    }
}

fn is_digit_exec(c: char) -> (r: bool)
    ensures
        r == is_digit(c),
{
    let u = c as u32;
    48 <= u && u <= 57
}

/// Checks the coordinate-number grammar.
fn is_plain_number_exec(t: &str) -> (r: bool)
    ensures
        r == is_plain_number(t@),
{
    let ghost tv = t@;
    let len = t.unicode_len();
    let mut cs: Vec<char> = Vec::new();
    let mut i: usize = 0;
    while i < len
        invariant
            i <= len,
            len == tv.len(),
            tv == t@,
            cs@ =~= tv.take(i as int),
        decreases len - i,
    {
        let c = t.get_char(i);
        cs.push(c);
        proof {
            assert(cs@ =~= tv.take(i + 1 as int));
        }
        i += 1;
    }
    proof {
        assert(cs@ =~= tv);
    }
    let m: usize = if len > 0 && cs[0] == '-' {
        1
    } else {
        0
    };
    let ghost u = unsigned_part(tv);
    proof {
        assert(u =~= tv.skip(m as int));
        assert(u.len() + m == len);
        assert(forall|j: int| 0 <= j < u.len() ==> u[j] == tv[m + j]);
    }
    let n = len - m;
    if n == 0 {
        return false;
    }
    // Find the first dot.
    let mut p: usize = 0;
    while p < n && cs[m + p] != '.'
        invariant
            p <= n,
            m + n == len,
            n == u.len(),
            m <= 1,
            len == tv.len(),
            tv == t@,
            cs@ == tv,
            u == unsigned_part(tv),
            u =~= tv.skip(m as int),
            forall|j: int| 0 <= j < u.len() ==> u[j] == tv[m + j],
            forall|j: int| 0 <= j < p ==> u[j] != '.',
        decreases n - p,
    {
        p += 1;
    }
    proof {
        lemma_first_dot_decides(u, p as int);
    }
    if p == 0 {
        return false;
    }
    let mut i: usize = 0;
    while i < p
        invariant
            i <= p,
            p <= n,
            m + n == len,
            n == u.len(),
            m <= 1,
            len == tv.len(),
            tv == t@,
            cs@ == tv,
            u == unsigned_part(tv),
            forall|j: int| 0 <= j < u.len() ==> u[j] == tv[m + j],
            forall|j: int| 0 <= j < p ==> u[j] != '.',
            p < n ==> u[p as int] == '.',
            forall|j: int| 0 <= j < i ==> is_digit(u[j]),
        decreases p - i,
    {
        if !is_digit_exec(cs[m + i]) {
            proof {
                assert(u[i as int] == tv[m + i]);
                lemma_first_dot_decides(u, p as int);
            }
            return false;
        }
        i += 1;
    }
    if cs[m] == '0' && p != 1 {
        proof {
            lemma_first_dot_decides(u, p as int);
        }
        return false;
    }
    if p < n {
        if p + 1 >= n {
            proof {
                lemma_first_dot_decides(u, p as int);
            }
            return false;
        }
        let mut i: usize = p + 1;
        while i < n
            invariant
                p < i <= n,
                p >= 1,
                m + n == len,
                n == u.len(),
                m <= 1,
                len == tv.len(),
                tv == t@,
                cs@ == tv,
                u == unsigned_part(tv),
                forall|j: int| 0 <= j < u.len() ==> u[j] == tv[m + j],
                forall|j: int| 0 <= j < p ==> u[j] != '.',
                u[p as int] == '.',
                forall|j: int| p < j < i ==> is_digit(u[j]),
            decreases n - i,
        {
            if !is_digit_exec(cs[m + i]) {
                proof {
                    assert(u[i as int] == tv[m + i]);
                    lemma_first_dot_decides(u, p as int);
                }
                return false;
            }
            i += 1;
        }
    }
    proof {
        assert(number_split_at(u, p as int));
        assert(is_plain_number(tv)) by {
            assert(number_split_at(unsigned_part(tv), p as int));
        }
    }
    true
}

/// A coordinate column: the reported number text when it fits the
/// grammar, else `null`.
pub open spec fn number_or_null(t: Option<Seq<char>>) -> Seq<char> {
    match t {
        Some(v) => if is_plain_number(v) { v } else { "null"@ },
        None => "null"@,
    }
}

/// An optional count: its digits, or `null`.
pub open spec fn opt_u16_json(n: Option<u16>) -> Seq<char> {
    match n {
        Some(v) => dec_digits(v as nat),
        None => "null"@,
    }
}

/// The device descriptor as the JSON object persisted in the `device`
/// column, fields in declaration order.
pub open spec fn device_json(d: DeviceView) -> Seq<char> {
    "{\"device_family\":"@ + json_string(d.device_family)
        + ",\"device_brand\":"@ + opt_string_json(d.device_brand)
        + ",\"device_model\":"@ + opt_string_json(d.device_model)
        + ",\"os_family\":"@ + json_string(d.os_family)
        + ",\"os_major\":"@ + opt_string_json(d.os_major)
        + ",\"os_minor\":"@ + opt_string_json(d.os_minor)
        + ",\"os_patch\":"@ + opt_string_json(d.os_patch)
        + ",\"os_patch_minor\":"@ + opt_string_json(d.os_patch_minor)
        + ",\"agent_family\":"@ + json_string(d.agent_family)
        + ",\"agent_major\":"@ + opt_string_json(d.agent_major)
        + ",\"agent_minor\":"@ + opt_string_json(d.agent_minor)
        + "}"@
}

/// The geolocation descriptor as the JSON object persisted in the
/// `geolocation` column, fields in declaration order.
pub open spec fn geolocation_json(g: GeoView) -> Seq<char> {
    "{\"city\":"@ + opt_string_json(g.city)
        + ",\"continent\":"@ + opt_string_json(g.continent)
        + ",\"country\":"@ + opt_string_json(g.country)
        + ",\"latitude\":"@ + number_or_null(g.latitude)
        + ",\"longitude\":"@ + number_or_null(g.longitude)
        + ",\"accuracy_radius\":"@ + opt_u16_json(g.accuracy_radius)
        + ",\"time_zone\":"@ + opt_string_json(g.time_zone)
        + "}"@
}

fn push_number_or_null(out: &mut String, t: &Option<String>)
    ensures
        final(out)@ == old(out)@ + number_or_null(view_of_opt_string(*t)),
{
    match t {
        Some(v) => {
            if is_plain_number_exec(v.as_str()) {
                out.append(v.as_str());
            } else {
                out.append("null");
            }
        }
        None => out.append("null"),
    }
}

fn push_opt_u16(out: &mut String, n: &Option<u16>)
    ensures
        final(out)@ == old(out)@ + opt_u16_json(*n),
{
    match n {
        Some(v) => push_dec_u64(out, *v as u64),
        None => out.append("null"),
    }
}

/// Serializes the device descriptor for the `device` column.
pub fn device_to_json(d: &UserDevice) -> (r: String)
    ensures
        r@ == device_json(d@),
{
    let mut out = String::new();
    out.append("{\"device_family\":");
    push_json_string(&mut out, d.device_family.as_str());
    out.append(",\"device_brand\":");
    push_opt_string(&mut out, &d.device_brand);
    out.append(",\"device_model\":");
    push_opt_string(&mut out, &d.device_model);
    out.append(",\"os_family\":");
    push_json_string(&mut out, d.os_family.as_str());
    out.append(",\"os_major\":");
    push_opt_string(&mut out, &d.os_major);
    out.append(",\"os_minor\":");
    push_opt_string(&mut out, &d.os_minor);
    out.append(",\"os_patch\":");
    push_opt_string(&mut out, &d.os_patch);
    out.append(",\"os_patch_minor\":");
    push_opt_string(&mut out, &d.os_patch_minor);
    out.append(",\"agent_family\":");
    push_json_string(&mut out, d.agent_family.as_str());
    out.append(",\"agent_major\":");
    push_opt_string(&mut out, &d.agent_major);
    out.append(",\"agent_minor\":");
    push_opt_string(&mut out, &d.agent_minor);
    out.append("}");
    assert(out@ =~= device_json(d@));
    out
}

/// Serializes the geolocation descriptor for the `geolocation` column.
pub fn geolocation_to_json(g: &UserGeolocation) -> (r: String)
    ensures
        r@ == geolocation_json(g@),
{
    let mut out = String::new();
    out.append("{\"city\":");
    push_opt_string(&mut out, &g.city);
    out.append(",\"continent\":");
    push_opt_string(&mut out, &g.continent);
    out.append(",\"country\":");
    push_opt_string(&mut out, &g.country);
    out.append(",\"latitude\":");
    push_number_or_null(&mut out, &g.latitude);
    out.append(",\"longitude\":");
    push_number_or_null(&mut out, &g.longitude);
    out.append(",\"accuracy_radius\":");
    push_opt_u16(&mut out, &g.accuracy_radius);
    out.append(",\"time_zone\":");
    push_opt_string(&mut out, &g.time_zone);
    out.append("}");
    assert(out@ =~= geolocation_json(g@));
    out
}

/// The localized city names a geolocation lookup reports, in the backing
/// database's iteration order: `(language code, name)` pairs.
pub open spec fn name_views(names: Seq<(String, String)>) -> Seq<(Seq<char>, Seq<char>)> {
    names.map_values(|p: (String, String)| (p.0@, p.1@))
}

/// The first entry keyed `en`, if any.
pub open spec fn find_en(names: Seq<(Seq<char>, Seq<char>)>) -> Option<Seq<char>>
    decreases names.len(),
{
    if names.len() == 0 { None }
    else if names[0].0 == "en"@ { Some(names[0].1) }
    else { find_en(names.drop_first()) }
}

/// The city name to keep: the English localization when present, else the
/// first name reported, else none.
pub open spec fn preferred_name(names: Seq<(Seq<char>, Seq<char>)>) -> Option<Seq<char>> {
    match find_en(names) {
        Some(v) => Some(v),
        None => if names.len() == 0 { None } else { Some(names[0].1) },
    }
}

/// Whether the string is exactly `en`.
fn is_en(s: &String) -> (r: bool)
    ensures
        r == (s@ == "en"@),
{
    proof {
        reveal_strlit("en");
    }
    let st = s.as_str();
    if st.unicode_len() != 2 {
        proof {
            assert(s@ != "en"@) by {
                assert("en"@.len() == 2);
            }
        }
        false
    } else {
        let r = st.get_char(0) == 'e' && st.get_char(1) == 'n';
        proof {
            if r {
                assert(s@ =~= "en"@);
            }
        }
        r
    }
}

/// Selects the city name from the reported localizations: prefer the `en`
/// entry, else take the first.
pub fn pick_city_name(names: &Vec<(String, String)>) -> (r: Option<String>)
    ensures
        match r {
            Some(v) => preferred_name(name_views(names@)) == Some(v@),
            None => preferred_name(name_views(names@)) is None,
        },
{
    let ghost views = name_views(names@);
    proof {
        assert(views.skip(0) =~= views);
    }
    let mut i: usize = 0;
    while i < names.len()
        invariant
            i <= names.len(),
            views == name_views(names@),
            views.len() == names@.len(),
            forall|j: int| 0 <= j < i ==> views[j].0 != "en"@,
            find_en(views.skip(i as int)) == find_en(views),
        decreases names.len() - i,
    {
        proof {
            assert(views.skip(i as int)[0] == views[i as int]);
        }
        if is_en(&names[i].0) {
            proof {
                assert(find_en(views.skip(i as int)) == Some(views[i as int].1));
            }
            return Some(names[i].1.clone());
        }
        proof {
            assert(views.skip(i as int).drop_first() =~= views.skip(i + 1 as int));
        }
        i += 1;
    }
    proof {
        assert(views.skip(names@.len() as int) =~= Seq::<(Seq<char>, Seq<char>)>::empty());
        assert(find_en(views) is None);
    }
    if names.len() > 0 {
        Some(names[0].1.clone())
    } else {
        None
    }
}

} // verus!
