//! A file name read as `base.vN.YYYYMMDD[.tag].ext`, and its renderings.

use vstd::prelude::*;
use vstd::string::{StrSliceExecFns, StringExecFns};
use crate::clock::local_date_stamp;
use crate::segments::{
    all_no_dot, join_dots, join_segments, lemma_join_push, lemma_join_split, lemma_split_join,
    lemma_split_shape, no_dot, split_dots, split_segments, views,
};

verus! {

/// An ASCII decimal digit.
pub open spec fn is_digit(c: char) -> bool {
    '0' <= c && c <= '9'
}

pub open spec fn all_digits(s: Seq<char>) -> bool {
    forall|i: int| 0 <= i < s.len() ==> is_digit(#[trigger] s[i])
}

/// A date segment: exactly eight ASCII digits.
pub open spec fn is_stamp(s: Seq<char>) -> bool {
    s.len() == 8 && all_digits(s)
}

/// A version segment: `v` followed by one or two ASCII digits.
pub open spec fn is_version_segment(s: Seq<char>) -> bool {
    2 <= s.len() <= 3 && s[0] == 'v' && all_digits(s.drop_first())
}

pub open spec fn digit_value(c: char) -> nat {
    ((c as u32) - ('0' as u32)) as nat
}

/// The number that a string of decimal digits denotes.
pub open spec fn digits_value(s: Seq<char>) -> nat
    decreases s.len(),
{
    if s.len() == 0 {
        0
    } else {
        digits_value(s.drop_last()) * 10 + digit_value(s.last())
    }
}

pub open spec fn digit_char(d: nat) -> char {
    seq!['0', '1', '2', '3', '4', '5', '6', '7', '8', '9'][d as int]
}

/// `n` in decimal, without leading zeros.
pub open spec fn decimal(n: nat) -> Seq<char>
    decreases n,
{
    if n < 10 {
        seq![digit_char(n)]
    } else {
        decimal(n / 10).push(digit_char(n % 10))
    }
}

/// What a parsed file name holds.
pub struct NameModel {
    pub original: Seq<char>,
    pub base_name: Seq<char>,
    pub version: nat,
    pub timestamp: Seq<char>,
    pub tag: Option<Seq<char>>,
    pub extension: Seq<char>,
    pub canonical: bool,
}

/// The name without its last dot-separated piece, and that piece; a name
/// without a dot is all body, with an empty extension.
pub open spec fn split_name(name: Seq<char>) -> (Seq<char>, Seq<char>) {
    let segs = split_dots(name);
    if segs.len() <= 1 {
        (name, Seq::<char>::empty())
    } else {
        (join_dots(segs.drop_last()), segs.last())
    }
}

/// The value given to a name that does not follow the scheme: version 1,
/// dated `today`, with the whole body as its base name.
pub open spec fn fallback(
    name: Seq<char>,
    body: Seq<char>,
    extension: Seq<char>,
    today: Seq<char>,
) -> NameModel {
    NameModel {
        original: name,
        base_name: body,
        version: 1,
        timestamp: today,
        tag: None,
        extension,
        canonical: false,
    }
}

/// A name that follows the scheme, read off its pieces.
pub open spec fn matched(
    name: Seq<char>,
    parts: Seq<Seq<char>>,
    vi: int,
    tag: Option<Seq<char>>,
    extension: Seq<char>,
) -> NameModel {
    NameModel {
        original: name,
        base_name: join_dots(parts.take(vi)),
        version: digits_value(parts[vi].drop_first()),
        timestamp: parts[vi + 1],
        tag,
        extension,
        canonical: true,
    }
}

/// Reading a file name. The pieces of the body are matched from the right:
/// the last one is taken as the date if it is one, and only otherwise as a tag
/// followed by the date before it; the piece before the date must be a version.
pub open spec fn parse_model(name: Seq<char>, today: Seq<char>) -> NameModel {
    let (body, extension) = split_name(name);
    let parts = split_dots(body);
    let n = parts.len() as int;
    if n < 3 {
        fallback(name, body, extension, today)
    } else if is_stamp(parts[n - 1]) {
        if is_version_segment(parts[n - 2]) {
            matched(name, parts, n - 2, None, extension)
        } else {
            fallback(name, body, extension, today)
        }
    } else if is_stamp(parts[n - 2]) {
        if is_version_segment(parts[n - 3]) {
            matched(name, parts, n - 3, Some(parts[n - 1]), extension)
        } else {
            fallback(name, body, extension, today)
        }
    } else {
        fallback(name, body, extension, today)
    }
}

pub open spec fn tag_suffix(tag: Option<Seq<char>>) -> Seq<char> {
    match tag {
        Some(t) => seq!['.'] + t,
        None => Seq::<char>::empty(),
    }
}

/// `{base}.v{version}.{timestamp}[.{tag}].{extension}`.
pub open spec fn render_text(
    base_name: Seq<char>,
    version: nat,
    timestamp: Seq<char>,
    tag: Option<Seq<char>>,
    extension: Seq<char>,
) -> Seq<char> {
    base_name + seq!['.', 'v'] + decimal(version) + seq!['.'] + timestamp + tag_suffix(tag) + seq![
        '.',
    ] + extension
}

/// The rendering of a value: its original text plays no part.
pub open spec fn render(m: NameModel) -> Seq<char> {
    render_text(m.base_name, m.version, m.timestamp, m.tag, m.extension)
}

pub open spec fn tag_view(tag: Option<String>) -> Option<Seq<char>> {
    match tag {
        Some(t) => Some(t@),
        None => None,
    }
}

/// The next version, dated `today`.
pub open spec fn upgrade(m: NameModel, today: Seq<char>) -> NameModel {
    NameModel { version: m.version + 1, timestamp: today, ..m }
}

/// The fields that rendering needs in order to be read back unchanged.
pub open spec fn renders_back(m: NameModel) -> bool {
    &&& m.version <= 99
    &&& is_stamp(m.timestamp)
    &&& no_dot(m.extension)
    &&& match m.tag {
        Some(t) => no_dot(t) && !is_stamp(t),
        None => true,
    }
}

proof fn lemma_digit_char(d: nat)
    requires
        d < 10,
    ensures
        is_digit(digit_char(d)),
        digit_value(digit_char(d)) == d,
{
    let ds = seq!['0', '1', '2', '3', '4', '5', '6', '7', '8', '9'];
    assert(ds[0] == '0' && ds[1] == '1' && ds[2] == '2' && ds[3] == '3' && ds[4] == '4');
    assert(ds[5] == '5' && ds[6] == '6' && ds[7] == '7' && ds[8] == '8' && ds[9] == '9');
}

proof fn lemma_digits_value_short(s: Seq<char>)
    requires
        1 <= s.len() <= 2,
    ensures
        s.len() == 1 ==> digits_value(s) == digit_value(s[0]),
        s.len() == 2 ==> digits_value(s) == digit_value(s[0]) * 10 + digit_value(s[1]),
{
    let e = Seq::<char>::empty();
    assert(digits_value(e) == 0);
    if s.len() == 1 {
        assert(s.drop_last() =~= e);
    } else {
        let h = s.drop_last();
        assert(h =~= seq![s[0]]);
        assert(h.drop_last() =~= e);
        assert(digits_value(h) == digit_value(s[0]));
    }
}

proof fn lemma_digits_no_dot(s: Seq<char>)
    requires
        all_digits(s),
    ensures
        no_dot(s),
{
    if s.contains('.') {
        let k = choose|k: int| 0 <= k < s.len() && s[k] == '.';
        assert(is_digit(s[k]));
    }
}

proof fn lemma_decimal_small(v: nat)
    requires
        v <= 99,
    ensures
        1 <= decimal(v).len() <= 2,
        all_digits(decimal(v)),
        digits_value(decimal(v)) == v,
{
    if v < 10 {
        lemma_digit_char(v);
        lemma_digits_value_short(decimal(v));
    } else {
        lemma_digit_char(v / 10);
        lemma_digit_char(v % 10);
        let s = decimal(v);
        assert(decimal(v / 10) == seq![digit_char(v / 10)]);
        assert(s =~= seq![digit_char(v / 10), digit_char(v % 10)]);
        lemma_digits_value_short(s);
    }
}

proof fn lemma_version_segment(v: nat)
    requires
        v <= 99,
    ensures
        is_version_segment(seq!['v'] + decimal(v)),
        (seq!['v'] + decimal(v)).drop_first() == decimal(v),
        no_dot(seq!['v'] + decimal(v)),
{
    lemma_decimal_small(v);
    let s = seq!['v'] + decimal(v);
    assert(s.drop_first() =~= decimal(v));
    assert(no_dot(s)) by {
        lemma_digits_no_dot(decimal(v));
        if s.contains('.') {
            let k = choose|k: int| 0 <= k < s.len() && s[k] == '.';
            assert(s[k] == decimal(v)[k - 1]);
        }
    }
}

/// A parsed name: its shape, whatever the name was.
proof fn lemma_parse_facts(name: Seq<char>, today: Seq<char>)
    ensures
        parse_model(name, today).original == name,
        parse_model(name, today).version <= 99,
        no_dot(parse_model(name, today).extension),
        parse_model(name, today).canonical ==> is_stamp(parse_model(name, today).timestamp),
        parse_model(name, today).canonical ==> parse_model(name, today) == parse_model(
            name,
            parse_model(name, today).timestamp,
        ),
        !parse_model(name, today).canonical ==> parse_model(name, today).timestamp == today,
        match parse_model(name, today).tag {
            Some(t) => no_dot(t) && !is_stamp(t),
            None => true,
        },
{
    let segs = split_dots(name);
    lemma_split_shape(name);
    let (body, extension) = split_name(name);
    if segs.len() > 1 {
        assert(no_dot(segs[segs.len() - 1]));
    } else {
        assert(no_dot(Seq::<char>::empty()));
    }
    let parts = split_dots(body);
    lemma_split_shape(body);
    let n = parts.len() as int;
    if n >= 3 {
        assert(no_dot(parts[n - 1]));
        let m = parse_model(name, today);
        if m.canonical {
            let vi = if is_stamp(parts[n - 1]) { n - 2 } else { n - 3 };
            let ds = parts[vi].drop_first();
            assert(all_digits(ds));
            lemma_digits_value_short(ds);
            assert(is_digit(ds[0]));
            if ds.len() == 2 {
                assert(is_digit(ds[1]));
            }
        }
    }
}

/// Rendering a value whose fields fit the scheme, and reading the result back,
/// gives the same fields, now marked as following the scheme.
pub proof fn lemma_render_parse(m: NameModel, today: Seq<char>)
    requires
        renders_back(m),
    ensures
        parse_model(render(m), today) == (NameModel { original: render(m), canonical: true, ..m }),
{
    let vseg = seq!['v'] + decimal(m.version);
    lemma_version_segment(m.version);
    lemma_decimal_small(m.version);
    lemma_digits_no_dot(m.timestamp);
    let p0 = split_dots(m.base_name);
    lemma_split_shape(m.base_name);
    lemma_join_split(m.base_name);
    let p1 = p0.push(vseg);
    let p2 = p1.push(m.timestamp);
    lemma_join_push(p0, vseg);
    lemma_join_push(p1, m.timestamp);
    let p3 = match m.tag {
        Some(t) => p2.push(t),
        None => p2,
    };
    match m.tag {
        Some(t) => {
            lemma_join_push(p2, t);
        },
        None => {},
    }
    let s = p3.push(m.extension);
    lemma_join_push(p3, m.extension);
    let r = render(m);
    assert(join_dots(s) =~= r);
    assert(all_no_dot(p3)) by {
        assert forall|i: int| 0 <= i < p3.len() implies no_dot(#[trigger] p3[i]) by {
            if i < p0.len() {
                assert(p3[i] == p0[i]);
            }
        }
    }
    assert(all_no_dot(s)) by {
        assert forall|i: int| 0 <= i < s.len() implies no_dot(#[trigger] s[i]) by {
            if i < p3.len() {
                assert(s[i] == p3[i]);
            }
        }
    }
    lemma_split_join(s);
    lemma_split_join(p3);
    assert(s.drop_last() == p3);
    assert(split_name(r) == (join_dots(p3), m.extension));
    let n = p3.len() as int;
    match m.tag {
        Some(t) => {
            assert(p3.take(n - 3) =~= p0);
        },
        None => {
            assert(p3.take(n - 2) =~= p0);
        },
    }
}

/// Every name that follows the scheme renders to a name that reads back to
/// the same base name, version, date, tag and extension.
pub proof fn law_round_trip(name: Seq<char>, today: Seq<char>, later: Seq<char>)
    requires
        parse_model(name, today).canonical,
    ensures
        parse_model(render(parse_model(name, today)), later) == (NameModel {
            original: render(parse_model(name, today)),
            ..parse_model(name, today)
        }),
{
    lemma_parse_facts(name, today);
    lemma_render_parse(parse_model(name, today), later);
}

/// A name that does not follow the scheme is given version 1 and today's date,
/// and its rendering is a name that does follow it, with the same base name
/// and extension.
pub proof fn law_fallback_renders_canonical(name: Seq<char>, today: Seq<char>, later: Seq<char>)
    requires
        !parse_model(name, today).canonical,
        is_stamp(today),
    ensures
        parse_model(name, today).version == 1,
        parse_model(name, today).timestamp == today,
        parse_model(name, today).tag is None,
        parse_model(render(parse_model(name, today)), later) == (NameModel {
            original: render(parse_model(name, today)),
            canonical: true,
            ..parse_model(name, today)
        }),
{
    lemma_parse_facts(name, today);
    lemma_render_parse(parse_model(name, today), later);
}

/// Advancing a name that follows the scheme raises its version by one and
/// dates it `now`; base name, tag and extension stay, and the result reads
/// back as following the scheme.
pub proof fn law_upgrade_advances(
    name: Seq<char>,
    today: Seq<char>,
    now: Seq<char>,
    later: Seq<char>,
)
    requires
        parse_model(name, today).canonical,
        parse_model(name, today).version <= 98,
        is_stamp(now),
    ensures
        ({
            let v = parse_model(name, today);
            let w = parse_model(render(upgrade(v, now)), later);
            &&& w.canonical
            &&& w.version == v.version + 1
            &&& w.timestamp == now
            &&& w.base_name == v.base_name
            &&& w.tag == v.tag
            &&& w.extension == v.extension
        }),
{
    lemma_parse_facts(name, today);
    lemma_render_parse(upgrade(parse_model(name, today), now), later);
}

/// Whether `s` is exactly eight ASCII digits.
fn is_stamp_text(s: &str) -> (r: bool)
    ensures
        r == is_stamp(s@),
{
    let len = s.unicode_len();
    if len != 8 {
        return false;
    }
    let mut i: usize = 0;
    while i < len
        invariant
            len == s@.len(),
            i <= len,
            forall|k: int| 0 <= k < i ==> is_digit(#[trigger] s@[k]),
        decreases len - i,
    {
        let c = s.get_char(i);
        if !(c >= '0' && c <= '9') {
            return false;
        }
        i = i + 1;
    }
    true
}

fn digit_of(c: char) -> (r: u8)
    requires
        is_digit(c),
    ensures
        r as nat == digit_value(c),
        r < 10,
{
    ((c as u32) - ('0' as u32)) as u8
}

/// The number of a version segment, or `None` for any other text.
fn version_number(s: &str) -> (r: Option<u8>)
    ensures
        r == (if is_version_segment(s@) {
            Some(digits_value(s@.drop_first()) as u8)
        } else {
            None::<u8>
        }),
        r matches Some(v) ==> v as nat == digits_value(s@.drop_first()),
{
    let len = s.unicode_len();
    if len < 2 || len > 3 {
        return None;
    }
    if s.get_char(0) != 'v' {
        return None;
    }
    let ghost ds = s@.drop_first();
    proof {
        lemma_digits_value_short(ds);
    }
    let c1 = s.get_char(1);
    if !(c1 >= '0' && c1 <= '9') {
        assert(!all_digits(ds)) by {
            assert(ds[0] == c1);
        }
        return None;
    }
    let d1 = digit_of(c1);
    if len == 2 {
        assert(all_digits(ds)) by {
            assert(ds[0] == c1);
        }
        return Some(d1);
    }
    let c2 = s.get_char(2);
    if !(c2 >= '0' && c2 <= '9') {
        assert(!all_digits(ds)) by {
            assert(ds[1] == c2);
        }
        return None;
    }
    let d2 = digit_of(c2);
    assert(all_digits(ds)) by {
        assert(ds[0] == c1 && ds[1] == c2);
    }
    Some(d1 * 10 + d2)
}

/// One decimal digit as text.
fn digit_text(d: u8) -> (r: &'static str)
    requires
        d < 10,
    ensures
        r@ == seq![digit_char(d as nat)],
{
    let digits = "0123456789";
    proof {
        reveal_strlit("0123456789");
        assert(digits@ =~= seq!['0', '1', '2', '3', '4', '5', '6', '7', '8', '9']);
    }
    let r = digits.substring_char(d as usize, d as usize + 1);
    assert(r@ =~= seq![digit_char(d as nat)]);
    r
}

/// `n` in decimal.
fn decimal_text(n: u8) -> (r: String)
    ensures
        r@ == decimal(n as nat),
{
    let ghost v = n as nat;
    if n < 10 {
        digit_text(n).to_owned()
    } else if n < 100 {
        assert(decimal(v / 10) == seq![digit_char(v / 10)]);
        let mut r = digit_text(n / 10).to_owned();
        r.append(digit_text(n % 10));
        r
    } else {
        assert(v / 10 / 10 == v / 100);
        assert(decimal(v / 100) == seq![digit_char(v / 100)]);
        assert(decimal(v / 10) == decimal(v / 100).push(digit_char((v / 10) % 10)));
        let mut r = digit_text(n / 100).to_owned();
        r.append(digit_text((n / 10) % 10));
        r.append(digit_text(n % 10));
        assert(r@ =~= decimal(v));
        r
    }
}

/// The text of a name with the given fields.
fn render_fields(
    base_name: &String,
    version: u8,
    timestamp: &str,
    tag: &Option<String>,
    extension: &String,
) -> (r: String)
    ensures
        r@ == render_text(base_name@, version as nat, timestamp@, tag_view(*tag), extension@),
{
    proof {
        reveal_strlit(".v");
        reveal_strlit(".");
    }
    let mut r = base_name.clone();
    r.append(".v");
    let digits = decimal_text(version);
    r.append(digits.as_str());
    r.append(".");
    r.append(timestamp);
    match tag {
        Some(t) => {
            r.append(".");
            r.append(t.as_str());
        },
        None => {},
    }
    r.append(".");
    r.append(extension.as_str());
    assert(r@ =~= render_text(base_name@, version as nat, timestamp@, tag_view(*tag), extension@));
    r
}

/// A file name, read as `base.vN.YYYYMMDD[.tag].ext` where it has that form.
/// Every value is the reading of its original text, dated by its timestamp
/// where the text does not follow the scheme.
pub struct CanonicalName {
    original: String,
    base_name: String,
    version: u8,
    timestamp: String,
    tag: Option<String>,
    extension: String,
    canonical: bool,
}

impl View for CanonicalName {
    type V = NameModel;

    closed spec fn view(&self) -> NameModel {
        NameModel {
            original: self.original@,
            base_name: self.base_name@,
            version: self.version as nat,
            timestamp: self.timestamp@,
            tag: tag_view(self.tag),
            extension: self.extension@,
            canonical: self.canonical,
        }
    }
}

impl CanonicalName {
    #[verifier::type_invariant]
    closed spec fn read_from_original(self) -> bool {
        parse_model(self.original@, self.timestamp@) == self@
    }

    /// Reads `name`, dating it `today` if it does not follow the scheme.
    pub fn new_at(name: String, today: String) -> (r: Self)
        ensures
            r@ == parse_model(name@, today@),
    {
        proof {
            lemma_parse_facts(name@, today@);
        }
        let original = name.clone();
        let (body, extension) = Self::split(name);
        let parts = split_segments(body.as_str());
        let n = parts.len();
        proof {
            lemma_split_shape(body@);
        }
        if n < 3 {
            return Self::default_with_name(original, body, extension, today);
        }
        let mut idx: usize = n - 1;
        let mut tag: Option<String> = None;
        if !is_stamp_text(parts[idx].as_str()) {
            tag = Some(parts[idx].clone());
            idx = idx - 1;
            if !is_stamp_text(parts[idx].as_str()) {
                return Self::default_with_name(original, body, extension, today);
            }
        }
        let timestamp = parts[idx].clone();
        idx = idx - 1;
        match version_number(parts[idx].as_str()) {
            None => Self::default_with_name(original, body, extension, today),
            Some(version) => {
                let base_name = join_segments(&parts, 0, idx);
                assert(views(parts@).subrange(0, idx as int) =~= split_dots(body@).take(
                    idx as int,
                ));
                let r = Self { original, base_name, version, timestamp, tag, extension, canonical: true };
                assert(r@ == parse_model(name@, today@));
                r
            },
        }
    }

    /// Reads `name`; a name that does not follow the scheme is dated with
    /// today's local date.
    pub fn new(name: String) -> (r: Self)
        ensures
            r@ == parse_model(name@, r@.timestamp),
    {
        let today = local_date_stamp();
        let r = Self::new_at(name, today);
        proof {
            lemma_parse_facts(r@.original, today@);
        }
        r
    }

    /// The body of `name` before its last dot, and the text after it; a name
    /// without a dot is all body, with an empty extension.
    pub fn split(name: String) -> (r: (String, String))
        ensures
            (r.0@, r.1@) == split_name(name@),
    {
        let parts = split_segments(name.as_str());
        let n = parts.len();
        if n <= 1 {
            (name, String::new())
        } else {
            let body = join_segments(&parts, 0, n - 1);
            assert(views(parts@).subrange(0, n - 1) =~= split_dots(name@).drop_last());
            (body, parts[n - 1].clone())
        }
    }

    /// The value for a name that does not follow the scheme.
    fn default_with_name(
        original: String,
        name: String,
        extension: String,
        timestamp: String,
    ) -> (r: Self)
        requires
            parse_model(original@, timestamp@) == fallback(
                original@,
                name@,
                extension@,
                timestamp@,
            ),
        ensures
            r@ == fallback(original@, name@, extension@, timestamp@),
    {
        Self {
            original,
            base_name: name,
            version: 1,
            timestamp,
            tag: None,
            extension,
            canonical: false,
        }
    }

    /// Whether the name followed the scheme.
    pub fn is_canonical(&self) -> (r: bool)
        ensures
            r == self@.canonical,
    {
        self.canonical
    }

    /// The text that was read.
    pub fn get_original(&self) -> (r: String)
        ensures
            r@ == self@.original,
    {
        self.original.clone()
    }

    pub fn base_name(&self) -> (r: String)
        ensures
            r@ == self@.base_name,
    {
        self.base_name.clone()
    }

    pub fn version(&self) -> (r: u8)
        ensures
            r as nat == self@.version,
    {
        self.version
    }

    pub fn timestamp(&self) -> (r: String)
        ensures
            r@ == self@.timestamp,
    {
        self.timestamp.clone()
    }

    pub fn tag(&self) -> (r: Option<String>)
        ensures
            r matches Some(t) ==> self@.tag == Some(t@),
            r is None ==> self@.tag is None,
    {
        match &self.tag {
            Some(t) => Some(t.clone()),
            None => None,
        }
    }

    pub fn extension(&self) -> (r: String)
        ensures
            r@ == self@.extension,
    {
        self.extension.clone()
    }

    /// `{base}.v{version}.{timestamp}[.{tag}].{extension}`.
    pub fn to_string(&self) -> (r: String)
        ensures
            r@ == render(self@),
    {
        let r = render_fields(&self.base_name, self.version, self.timestamp.as_str(), &self.tag, &self.extension);
        assert(r@ =~= render(self@));
        r
    }

    /// The rendering of the next version, dated `today`.
    pub fn to_upgrade_string_at(&self, today: &str) -> (r: String)
        ensures
            r@ == render(upgrade(self@, today@)),
    {
        proof {
            use_type_invariant(self);
            lemma_parse_facts(self.original@, self.timestamp@);
        }
        let r = render_fields(&self.base_name, self.version + 1, today, &self.tag, &self.extension);
        assert(r@ =~= render(upgrade(self@, today@)));
        r
    }

    /// The rendering of the next version, dated with today's local date.
    pub fn to_upgrade_string(&self) -> (r: String)
        ensures
            exists|today: Seq<char>| r@ == render(upgrade(self@, today)),
    {
        let today = local_date_stamp();
        self.to_upgrade_string_at(today.as_str())
    }
}

} // verus!
