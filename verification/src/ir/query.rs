//! A query as it is written down, and its validation.
//!
//! ```yaml
//! name: suspected_scanners
//! window:
//!   size: 60s
//!   slide: 10s
//! match:
//!   protocol: tcp
//!   dst.port: [22, 80, 443]
//! groupBy:
//!   - src.ip
//! measure:
//!   type: distinct_count
//!   field: dst.ip
//!   error:
//!     epsilon: 0.02
//! alertIf:
//!   gt: 5000
//! export:
//!   prometheus: true
//!   maxSeries: 500
//! resources:
//!   maxMemory: 64MiB
//! ```

use vstd::prelude::*;
use vstd::string::*;

use crate::event::protocol;
use crate::field::{named, unknown_field, Field};
use crate::float_bits::Float64;
use crate::ir::logical::{
    default_error, default_export, humanized, no_filter, AlertSpec, ErrorSpec, ExportSpec, LogicalQuery,
    LogicalQueryView, Measure, Predicate, PredicateView, WindowSpec, DEFAULT_DELTA_BITS,
    DEFAULT_EPSILON_BITS,
};
use crate::text::{
    all_digits, chars_of, debug_text, dec, is_digit, is_space, law_decimal_round_trip,
    lemma_dec_digits, lemma_trimmed_blank, parse_number, parsed_number, quoted, same_text, text_of, trim,
    trimmed,
};

verus! {

/// Why a query document was not taken.
#[derive(Debug)]
pub enum QueryParseError {
    /// The document is not of the expected shape.
    Yaml(String),
    /// The document says something that a query cannot say.
    Invalid(String),
}

/// The content of a [`QueryParseError`].
pub ghost enum QueryParseErrorView {
    Yaml(Seq<char>),
    Invalid(Seq<char>),
}

impl View for QueryParseError {
    type V = QueryParseErrorView;

    open spec fn view(&self) -> QueryParseErrorView {
        match self {
            QueryParseError::Yaml(m) => QueryParseErrorView::Yaml(m@),
            QueryParseError::Invalid(m) => QueryParseErrorView::Invalid(m@),
        }
    }
}

impl QueryParseErrorView {
    /// The message shown to people.
    pub open spec fn message(self) -> Seq<char> {
        match self {
            QueryParseErrorView::Yaml(m) => "invalid YAML: "@ + m,
            QueryParseErrorView::Invalid(m) => "invalid query: "@ + m,
        }
    }
}

impl QueryParseError {
    pub fn to_string(&self) -> (r: String)
        ensures
            r@ == self@.message(),
    {
        match self {
            QueryParseError::Yaml(m) => {
                let mut out = "invalid YAML: ".to_owned();
                out.append(m.as_str());
                out
            },
            QueryParseError::Invalid(m) => {
                let mut out = "invalid query: ".to_owned();
                out.append(m.as_str());
                out
            },
        }
    }
}

/// The query is refused with this message.
pub open spec fn refused<T>(r: Result<T, QueryParseError>, message: Seq<char>) -> bool {
    &&& r is Err
    &&& r->Err_0@ == QueryParseErrorView::Invalid(message)
}

fn refuse(message: &str) -> (r: QueryParseError)
    ensures
        r@ == QueryParseErrorView::Invalid(message@),
{
    QueryParseError::Invalid(message.to_owned())
}

// ---------------------------------------------------------------------------
// Durations and memory sizes
// ---------------------------------------------------------------------------

/// How many of the first characters are decimal digits.
pub open spec fn leading_digits(s: Seq<char>) -> nat
    decreases s.len(),
{
    if s.len() > 0 && is_digit(s[0]) {
        1 + leading_digits(s.drop_first())
    } else {
        0
    }
}

/// Nanoseconds of a time unit.
pub open spec fn duration_scale(unit: Seq<char>) -> Option<nat> {
    if unit == "ns"@ {
        Some(1)
    } else if unit == "us"@ {
        Some(1_000)
    } else if unit == "ms"@ {
        Some(1_000_000)
    } else if unit == "s"@ {
        Some(1_000_000_000)
    } else if unit == "m"@ {
        Some(60_000_000_000)
    } else if unit == "h"@ {
        Some(3_600_000_000_000)
    } else {
        None
    }
}

/// Bytes of a memory unit.
pub open spec fn memory_scale(unit: Seq<char>) -> Option<nat> {
    if unit == "B"@ {
        Some(1)
    } else if unit == "KiB"@ {
        Some(1024)
    } else if unit == "MiB"@ {
        Some(1_048_576)
    } else if unit == "GiB"@ {
        Some(1_073_741_824)
    } else {
        None
    }
}

/// The nanoseconds that a text means, or why it means none. Beyond 64 bits a
/// duration is invalid.
pub open spec fn duration_meant(text: Seq<char>) -> Result<nat, Seq<char>> {
    let s = trimmed(text);
    let at = leading_digits(s) as int;
    let unit = s.skip(at);
    if at == s.len() {
        Err("duration "@ + debug_text(s) + " is missing a unit"@)
    } else {
        match parsed_number(s.take(at), u64::MAX as nat) {
            None => Err("invalid duration "@ + debug_text(s)),
            Some(n) => match duration_scale(unit) {
                None => Err(
                    "unknown duration unit "@ + debug_text(unit) + " in "@ + debug_text(s),
                ),
                Some(scale) => if n * scale > u64::MAX {
                    Err("invalid duration "@ + debug_text(s))
                } else {
                    Ok(n * scale)
                },
            },
        }
    }
}

/// The bytes that a text means, or why it means none. Beyond 64 bits a size is
/// invalid.
pub open spec fn memory_meant(text: Seq<char>) -> Result<nat, Seq<char>> {
    let s = trimmed(text);
    let at = leading_digits(s) as int;
    let unit = s.skip(at);
    if at == s.len() {
        Err("memory size "@ + debug_text(s) + " is missing a unit"@)
    } else {
        match parsed_number(s.take(at), u64::MAX as nat) {
            None => Err("invalid memory size "@ + debug_text(s)),
            Some(n) => match memory_scale(unit) {
                None => Err(
                    "unknown memory unit "@ + debug_text(unit) + " in "@ + debug_text(s)
                        + " (use B, KiB, MiB, GiB)"@,
                ),
                Some(scale) => if n * scale > u64::MAX {
                    Err("invalid memory size "@ + debug_text(s))
                } else {
                    Ok(n * scale)
                },
            },
        }
    }
}

/// A text at its first character that is no digit.
fn split_digits(s: &str) -> (r: (String, String))
    ensures
        r.0@ == s@.take(leading_digits(s@) as int),
        r.1@ == s@.skip(leading_digits(s@) as int),
        leading_digits(s@) <= s@.len(),
        r.1@.len() == 0 <==> leading_digits(s@) == s@.len(),
{
    let chars = chars_of(s);
    let mut i: usize = 0;
    assert(chars@.skip(0) =~= chars@);
    while i < chars.len() && chars[i] >= '0' && chars[i] <= '9'
        invariant
            i <= chars@.len(),
            i + leading_digits(chars@.skip(i as int)) == leading_digits(chars@),
        decreases chars@.len() - i,
    {
        assert(chars@.skip(i as int).drop_first() =~= chars@.skip(i + 1));
        i += 1;
    }
    assert(leading_digits(chars@) == i);
    let digits = text_of(vstd::slice::slice_subrange(chars.as_slice(), 0, i));
    let unit = text_of(vstd::slice::slice_subrange(chars.as_slice(), i, chars.len()));
    assert(digits@ =~= s@.take(i as int));
    assert(unit@ =~= s@.skip(i as int));
    (digits, unit)
}

/// A message around a quoted text.
fn about(before: &str, text: &str, after: &str) -> (r: QueryParseError)
    ensures
        r@ == QueryParseErrorView::Invalid(before@ + debug_text(text@) + after@),
{
    let mut m = before.to_owned();
    m.append(quoted(text).as_str());
    m.append(after);
    QueryParseError::Invalid(m)
}

proof fn lemma_nothing_after(s: Seq<char>)
    ensures
        s + ""@ == s,
{
    reveal_strlit("");
    assert(s + ""@ =~= s);
}

fn scaled(n: u64, scale: u64) -> (r: Option<u64>)
    ensures
        r is Some <==> n as nat * scale as nat <= u64::MAX,
        r is Some ==> r->0 == n as nat * scale as nat,
{
    assert(n as nat * scale as nat <= u64::MAX as nat * u64::MAX as nat) by (nonlinear_arith)
        requires
            n <= u64::MAX,
            scale <= u64::MAX,
    ;
    let product: u128 = n as u128 * scale as u128;
    if product > u64::MAX as u128 {
        None
    } else {
        Some(product as u64)
    }
}

/// Parse durations like `10s`, `5m`, `1h`, `500ms`.
pub fn parse_duration(s: &str) -> (r: Result<u64, QueryParseError>)
    ensures
        match duration_meant(s@) {
            Ok(n) => r is Ok && r->Ok_0 == n,
            Err(m) => refused(r, m),
        },
{
    let trimmed_text = trim(s);
    let t = trimmed_text.as_str();
    let (digits, unit) = split_digits(t);
    let u = unit.as_str();
    proof {
        lemma_nothing_after("invalid duration "@ + debug_text(t@));
    }
    if u.unicode_len() == 0 {
        return Err(about("duration ", t, " is missing a unit"));
    }
    let n: u64 = match parse_number(digits.as_str(), u64::MAX) {
        Some(n) => n,
        None => {
            return Err(about("invalid duration ", t, ""));
        },
    };
    let scale: u64 = if same_text(u, "ns") {
        1
    } else if same_text(u, "us") {
        1_000
    } else if same_text(u, "ms") {
        1_000_000
    } else if same_text(u, "s") {
        1_000_000_000
    } else if same_text(u, "m") {
        60_000_000_000
    } else if same_text(u, "h") {
        3_600_000_000_000
    } else {
        let mut m = "unknown duration unit ".to_owned();
        m.append(quoted(u).as_str());
        m.append(" in ");
        m.append(quoted(t).as_str());
        return Err(QueryParseError::Invalid(m));
    };
    match scaled(n, scale) {
        Some(v) => Ok(v),
        None => Err(about("invalid duration ", t, "")),
    }
}

/// Parse memory sizes like `128MiB`, `64KiB`, `1GiB`, `4096B`.
pub fn parse_memory(s: &str) -> (r: Result<u64, QueryParseError>)
    ensures
        match memory_meant(s@) {
            Ok(n) => r is Ok && r->Ok_0 == n,
            Err(m) => refused(r, m),
        },
{
    let trimmed_text = trim(s);
    let t = trimmed_text.as_str();
    let (digits, unit) = split_digits(t);
    let u = unit.as_str();
    proof {
        lemma_nothing_after("invalid memory size "@ + debug_text(t@));
    }
    if u.unicode_len() == 0 {
        return Err(about("memory size ", t, " is missing a unit"));
    }
    let n: u64 = match parse_number(digits.as_str(), u64::MAX) {
        Some(n) => n,
        None => {
            return Err(about("invalid memory size ", t, ""));
        },
    };
    let scale: u64 = if same_text(u, "B") {
        1
    } else if same_text(u, "KiB") {
        1024
    } else if same_text(u, "MiB") {
        1_048_576
    } else if same_text(u, "GiB") {
        1_073_741_824
    } else {
        let mut m = "unknown memory unit ".to_owned();
        m.append(quoted(u).as_str());
        m.append(" in ");
        m.append(quoted(t).as_str());
        m.append(" (use B, KiB, MiB, GiB)");
        return Err(QueryParseError::Invalid(m));
    };
    match scaled(n, scale) {
        Some(v) => Ok(v),
        None => Err(about("invalid memory size ", t, "")),
    }
}

// ---------------------------------------------------------------------------
// The document
// ---------------------------------------------------------------------------

/// Memory budget of a query that states none.
pub const DEFAULT_MAX_MEMORY_BYTES: u64 = 134_217_728;

/// The bits of 0.0163, the relative standard error at HLL precision 12.
pub const DISTINCT_EPSILON_BITS: u64 = 0x3F90_B0F2_7BB2_FEC5;

/// The bits of 0.5.
pub const MEDIAN_BITS: u64 = 0x3FE0_0000_0000_0000;

/// How many groups a heavy-hitter query ranks if it does not say.
pub const DEFAULT_LIMIT: usize = 100;

/// A query document, before validation.
#[derive(Debug)]
pub struct RawQuery {
    pub name: String,
    pub window: RawWindow,
    pub filter: Option<RawMatch>,
    pub group_by: Vec<String>,
    pub measure: RawMeasure,
    pub alert_if: Option<RawAlert>,
    pub export: Option<RawExport>,
    pub resources: Option<RawResources>,
}

#[derive(Debug)]
pub struct RawWindow {
    pub size: String,
    pub slide: Option<String>,
}

#[derive(Debug)]
pub struct RawMatch {
    pub protocol: Option<RawProtocol>,
    pub dst_port: Option<Ports>,
    pub src_port: Option<Ports>,
    pub interfaces: Option<Vec<u32>>,
}

/// A protocol as a document may hold it.
#[derive(Debug)]
pub enum RawProtocol {
    Name(String),
    /// A number, if it is a whole number that is not negative.
    Number(Option<u64>),
    /// Anything else, as shown to people.
    Other(String),
}

/// One port or a list of ports.
#[derive(Debug)]
pub enum Ports {
    One(u16),
    Many(Vec<u16>),
}

#[derive(Debug)]
pub struct RawMeasure {
    pub kind: String,
    pub value: Option<String>,
    pub field: Option<String>,
    pub limit: Option<usize>,
    pub q: Option<Float64>,
    pub error: Option<RawError>,
}

#[derive(Debug, Clone, Copy)]
pub struct RawError {
    pub epsilon: Option<Float64>,
    pub delta: Option<Float64>,
}

#[derive(Debug, Clone, Copy)]
pub struct RawAlert {
    pub gt: Option<Float64>,
    pub lt: Option<Float64>,
}

#[derive(Debug, Clone, Copy)]
pub struct RawExport {
    pub prometheus: Option<bool>,
    pub max_series: Option<usize>,
}

#[derive(Debug)]
pub struct RawResources {
    pub max_memory: Option<String>,
}

// ---------------------------------------------------------------------------
// Name and window
// ---------------------------------------------------------------------------

/// Letters and digits of ASCII, underscores and hyphens.
pub open spec fn is_name_char(c: char) -> bool {
    'a' <= c <= 'z' || 'A' <= c <= 'Z' || '0' <= c <= '9' || c == '_' || c == '-'
}

pub open spec fn all_name_chars(s: Seq<char>) -> bool {
    forall|i: int| 0 <= i < s.len() ==> is_name_char(#[trigger] s[i])
}

/// Why a query cannot have this name, if it cannot.
pub open spec fn name_fault(name: Seq<char>) -> Option<Seq<char>> {
    if trimmed(name).len() == 0 {
        Some("query name is empty"@)
    } else if !all_name_chars(name) {
        Some(
            "query name "@ + debug_text(name) + " must be alphanumeric with '_' or '-'"@,
        )
    } else {
        None
    }
}

fn check_name(name: &str) -> (r: Option<QueryParseError>)
    ensures
        match name_fault(name@) {
            Some(m) => r is Some && r->0@ == QueryParseErrorView::Invalid(m),
            None => r is None,
        },
{
    if trim(name).as_str().unicode_len() == 0 {
        return Some(refuse("query name is empty"));
    }
    let chars = chars_of(name);
    let mut i: usize = 0;
    while i < chars.len()
        invariant
            i <= chars@.len(),
            chars@ == name@,
            trimmed(name@).len() > 0,
            forall|j: int| 0 <= j < i ==> is_name_char(#[trigger] name@[j]),
        decreases chars@.len() - i,
    {
        let c: char = chars[i];
        if !((c >= 'a' && c <= 'z') || (c >= 'A' && c <= 'Z') || (c >= '0' && c <= '9') || c == '_'
            || c == '-') {
            assert(!is_name_char(name@[i as int]));
            return Some(about("query name ", name, " must be alphanumeric with '_' or '-'"));
        }
        i += 1;
    }
    None
}

pub open spec fn optional_text(s: Option<String>) -> Option<Seq<char>> {
    match s {
        Some(t) => Some(t@),
        None => None,
    }
}

/// The window that a size and a slide mean.
pub open spec fn window_meant(size: Seq<char>, slide: Option<Seq<char>>) -> Result<
    WindowSpec,
    Seq<char>,
> {
    match duration_meant(size) {
        Err(m) => Err(m),
        Ok(size_nanos) => match (match slide {
            Some(s) => duration_meant(s),
            None => Ok(size_nanos),
        }) {
            Err(m) => Err(m),
            Ok(slide_nanos) => if slide_nanos == 0 || size_nanos == 0 {
                Err("window size and slide must be positive"@)
            } else if slide_nanos > size_nanos {
                Err("window slide must not exceed window size"@)
            } else if size_nanos % slide_nanos != 0 {
                Err(
                    "window size ("@ + size + ") must be a multiple of slide ("@ + (match slide {
                        Some(s) => s,
                        None => Seq::empty(),
                    }) + ")"@,
                )
            } else {
                Ok(
                    WindowSpec {
                        size_nanos: size_nanos as u64,
                        slide_nanos: slide_nanos as u64,
                    },
                )
            },
        },
    }
}

impl RawWindow {
    pub open spec fn meant(self) -> Result<WindowSpec, Seq<char>> {
        window_meant(self.size@, optional_text(self.slide))
    }

    /// The window, if it is one.
    pub fn window_spec(&self) -> (r: Result<WindowSpec, QueryParseError>)
        ensures
            match self.meant() {
                Ok(w) => r is Ok && r->Ok_0 == w,
                Err(m) => refused(r, m),
            },
    {
        let size_nanos: u64 = match parse_duration(self.size.as_str()) {
            Ok(n) => n,
            Err(e) => {
                return Err(e);
            },
        };
        let slide_nanos: u64 = match &self.slide {
            Some(s) => match parse_duration(s.as_str()) {
                Ok(n) => n,
                Err(e) => {
                    return Err(e);
                },
            },
            None => size_nanos,
        };
        if slide_nanos == 0 || size_nanos == 0 {
            return Err(refuse("window size and slide must be positive"));
        }
        if slide_nanos > size_nanos {
            return Err(refuse("window slide must not exceed window size"));
        }
        if size_nanos % slide_nanos != 0 {
            let mut m = "window size (".to_owned();
            m.append(self.size.as_str());
            m.append(") must be a multiple of slide (");
            if let Some(s) = &self.slide {
                m.append(s.as_str());
            } else {
                assert(m@ + Seq::<char>::empty() =~= m@);
            }
            m.append(")");
            return Err(QueryParseError::Invalid(m));
        }
        Ok(WindowSpec { size_nanos, slide_nanos })
    }
}

// ---------------------------------------------------------------------------
// Grouping and filter
// ---------------------------------------------------------------------------

/// The fields that texts name; the first text that names none is refused.
pub open spec fn fields_meant(names: Seq<String>) -> Result<Seq<Field>, Seq<char>>
    decreases names.len(),
{
    if names.len() == 0 {
        Ok(Seq::empty())
    } else {
        match fields_meant(names.drop_last()) {
            Err(m) => Err(m),
            Ok(fields) => match named(names.last()@) {
                Some(f) => Ok(fields.push(f)),
                None => Err(unknown_field(names.last()@)),
            },
        }
    }
}

proof fn lemma_first_fault_stays(names: Seq<String>, i: int)
    requires
        0 <= i <= names.len(),
        fields_meant(names.take(i)) is Err,
    ensures
        fields_meant(names) == fields_meant(names.take(i)),
    decreases names.len(),
{
    if i == names.len() {
        assert(names.take(i) =~= names);
    } else {
        assert(names.drop_last().take(i) =~= names.take(i));
        lemma_first_fault_stays(names.drop_last(), i);
    }
}

/// The fields that texts name.
pub fn parse_fields(names: &Vec<String>) -> (r: Result<Vec<Field>, QueryParseError>)
    ensures
        match fields_meant(names@) {
            Ok(fields) => r is Ok && r->Ok_0@ == fields,
            Err(m) => refused(r, m),
        },
{
    let mut fields: Vec<Field> = Vec::new();
    let mut i: usize = 0;
    assert(names@.take(0) =~= Seq::<String>::empty());
    while i < names.len()
        invariant
            i <= names@.len(),
            fields_meant(names@.take(i as int)) == Ok::<Seq<Field>, Seq<char>>(fields@),
        decreases names@.len() - i,
    {
        assert(names@.take(i + 1).drop_last() =~= names@.take(i as int));
        match Field::from_str(names[i].as_str()) {
            Ok(f) => {
                fields.push(f);
            },
            Err(m) => {
                proof {
                    lemma_first_fault_stays(names@, i + 1);
                }
                return Err(QueryParseError::Invalid(m));
            },
        }
        i += 1;
    }
    assert(names@.take(i as int) =~= names@);
    Ok(fields)
}

/// The protocol number that a document entry means.
pub open spec fn protocol_meant(p: Option<RawProtocol>) -> Result<Option<u8>, Seq<char>> {
    match p {
        None => Ok(None),
        Some(RawProtocol::Name(s)) => match protocol::meant(s@) {
            Some(n) => Ok(Some(n)),
            None => Err("unknown protocol "@ + debug_text(s@)),
        },
        Some(RawProtocol::Number(n)) => if n is Some && n->0 <= 255 {
            Ok(Some(n->0 as u8))
        } else {
            Err("protocol number must be 0-255"@)
        },
        Some(RawProtocol::Other(shown)) => Err(
            "protocol must be a name or number, got "@ + shown@,
        ),
    }
}

pub open spec fn ports_listed(p: Option<Ports>) -> Seq<u16> {
    match p {
        None => Seq::empty(),
        Some(Ports::One(port)) => seq![port],
        Some(Ports::Many(v)) => v@,
    }
}

/// The filter that a document means.
pub open spec fn filter_meant(m: Option<RawMatch>) -> Result<PredicateView, Seq<char>> {
    match m {
        None => Ok(no_filter()),
        Some(m) => match protocol_meant(m.protocol) {
            Err(e) => Err(e),
            Ok(protocol) => Ok(
                PredicateView {
                    protocol,
                    dst_ports: ports_listed(m.dst_port),
                    src_ports: ports_listed(m.src_port),
                    interfaces: match m.interfaces {
                        Some(v) => v@,
                        None => Seq::empty(),
                    },
                },
            ),
        },
    }
}

impl RawProtocol {
    /// The protocol number.
    pub fn number(&self) -> (r: Result<u8, QueryParseError>)
        ensures
            match protocol_meant(Some(*self)) {
                Ok(n) => r is Ok && Some(r->Ok_0) == n,
                Err(m) => refused(r, m),
            },
    {
        match self {
            RawProtocol::Name(s) => match protocol::parse(s.as_str()) {
                Some(n) => Ok(n),
                None => {
                    proof {
                        lemma_nothing_after("unknown protocol "@ + debug_text(s@));
                    }
                    Err(about("unknown protocol ", s.as_str(), ""))
                },
            },
            RawProtocol::Number(n) => match n {
                Some(v) => if *v > 255 {
                    Err(refuse("protocol number must be 0-255"))
                } else {
                    Ok(*v as u8)
                },
                None => Err(refuse("protocol number must be 0-255")),
            },
            RawProtocol::Other(shown) => {
                let mut m = "protocol must be a name or number, got ".to_owned();
                m.append(shown.as_str());
                Err(QueryParseError::Invalid(m))
            },
        }
    }
}

impl Ports {
    pub fn into_vec(self) -> (r: Vec<u16>)
        ensures
            r@ == ports_listed(Some(self)),
    {
        match self {
            Ports::One(p) => {
                let v = vec![p];
                assert(v@ =~= seq![p]);
                v
            },
            Ports::Many(v) => v,
        }
    }
}

impl RawMatch {
    /// The filter.
    pub fn into_predicate(self) -> (r: Result<Predicate, QueryParseError>)
        ensures
            match filter_meant(Some(self)) {
                Ok(p) => r is Ok && r->Ok_0@ == p,
                Err(m) => refused(r, m),
            },
    {
        let RawMatch { protocol, dst_port, src_port, interfaces } = self;
        let protocol: Option<u8> = match &protocol {
            None => None,
            Some(p) => match p.number() {
                Ok(n) => Some(n),
                Err(e) => {
                    return Err(e);
                },
            },
        };
        let dst_ports: Vec<u16> = match dst_port {
            Some(p) => p.into_vec(),
            None => Vec::new(),
        };
        let src_ports: Vec<u16> = match src_port {
            Some(p) => p.into_vec(),
            None => Vec::new(),
        };
        let interfaces: Vec<u32> = match interfaces {
            Some(v) => v,
            None => Vec::new(),
        };
        Ok(Predicate { protocol, dst_ports, src_ports, interfaces })
    }
}

// ---------------------------------------------------------------------------
// Error and measure
// ---------------------------------------------------------------------------

/// The epsilon of a measure that states none: counting reads epsilon as a
/// fraction of the total weight, distinct counts as a relative standard error.
pub open spec fn default_epsilon(kind: Seq<char>) -> Float64 {
    if kind == "distinct_count"@ {
        Float64 { bits: DISTINCT_EPSILON_BITS }
    } else {
        default_error().epsilon
    }
}

/// The error that a measure asks for. What is stated is kept as it is.
pub open spec fn error_asked(kind: Seq<char>, error: Option<RawError>) -> ErrorSpec {
    ErrorSpec {
        epsilon: if error is Some && error->0.epsilon is Some {
            error->0.epsilon->0
        } else {
            default_epsilon(kind)
        },
        delta: if error is Some && error->0.delta is Some {
            error->0.delta->0
        } else {
            default_error().delta
        },
    }
}

pub open spec fn error_meant(kind: Seq<char>, error: Option<RawError>) -> Result<
    ErrorSpec,
    Seq<char>,
> {
    let asked = error_asked(kind, error);
    if !asked.epsilon.in_open_unit() {
        Err("error.epsilon must be in (0, 1)"@)
    } else if !asked.delta.in_open_unit() {
        Err("error.delta must be in (0, 1)"@)
    } else {
        Ok(asked)
    }
}

/// The field that a measure is over.
pub open spec fn measured_field(
    kind: Seq<char>,
    name: Option<Seq<char>>,
    what: Seq<char>,
) -> Result<Field, Seq<char>> {
    match name {
        None => Err("measure type "@ + debug_text(kind) + " requires "@ + what),
        Some(n) => match named(n) {
            Some(f) => Ok(f),
            None => Err(unknown_field(n)),
        },
    }
}

pub open spec fn is_numeric(f: Field) -> bool {
    f == Field::Bytes || f == Field::Packets
}

/// The same, for a measure of numbers.
pub open spec fn measured_number(
    kind: Seq<char>,
    name: Option<Seq<char>>,
    what: Seq<char>,
    demand: Seq<char>,
) -> Result<Field, Seq<char>> {
    match measured_field(kind, name, what) {
        Err(m) => Err(m),
        Ok(f) => if is_numeric(f) {
            Ok(f)
        } else {
            Err(demand + " (bytes or packets), got "@ + f.text())
        },
    }
}

/// The measure that a document means.
pub open spec fn measure_meant(m: RawMeasure) -> Result<Measure, Seq<char>> {
    let kind = m.kind@;
    let value = optional_text(m.value);
    let field = optional_text(m.field);
    if kind == "count"@ {
        Ok(Measure::Count)
    } else if kind == "sum"@ {
        match measured_number(
            kind,
            if value is Some {
                value
            } else {
                field
            },
            "a numeric `value` field"@,
            "sum requires a numeric field"@,
        ) {
            Err(e) => Err(e),
            Ok(value) => Ok(Measure::Sum { value }),
        }
    } else if kind == "heavy_hitters"@ {
        match measured_number(
            kind,
            value,
            "a numeric `value` field"@,
            "heavy_hitters requires a numeric value field"@,
        ) {
            Err(e) => Err(e),
            Ok(value) => {
                let limit = if m.limit is Some {
                    m.limit->0
                } else {
                    DEFAULT_LIMIT
                };
                if limit == 0 {
                    Err("heavy_hitters limit must be positive"@)
                } else {
                    Ok(Measure::HeavyHitters { value, limit })
                }
            },
        }
    } else if kind == "distinct_count"@ {
        match measured_field(kind, field, "a `field` to count distinct values of"@) {
            Err(e) => Err(e),
            Ok(field) => Ok(Measure::DistinctCount { field }),
        }
    } else if kind == "entropy"@ {
        match measured_field(kind, field, "a `field`"@) {
            Err(e) => Err(e),
            Ok(field) => Ok(Measure::Entropy { field }),
        }
    } else if kind == "quantile"@ {
        match measured_number(
            kind,
            field,
            "a numeric `field`"@,
            "quantile requires a numeric field"@,
        ) {
            Err(e) => Err(e),
            Ok(field) => Ok(
                Measure::Quantile {
                    field,
                    q: if m.q is Some {
                        m.q->0
                    } else {
                        Float64 { bits: MEDIAN_BITS }
                    },
                },
            ),
        }
    } else {
        Err(
            "unknown measure type "@ + debug_text(kind)
                + "; expected count, sum, heavy_hitters, distinct_count, entropy, or quantile"@,
        )
    }
}

fn measure_field(kind: &str, name: &Option<String>, what: &str) -> (r: Result<
    Field,
    QueryParseError,
>)
    ensures
        match measured_field(kind@, optional_text(*name), what@) {
            Ok(f) => r is Ok && r->Ok_0 == f,
            Err(m) => refused(r, m),
        },
{
    match name {
        None => {
            let mut m = "measure type ".to_owned();
            m.append(quoted(kind).as_str());
            m.append(" requires ");
            m.append(what);
            Err(QueryParseError::Invalid(m))
        },
        Some(n) => match Field::from_str(n.as_str()) {
            Ok(f) => Ok(f),
            Err(m) => Err(QueryParseError::Invalid(m)),
        },
    }
}

fn measure_number(kind: &str, name: &Option<String>, what: &str, demand: &str) -> (r: Result<
    Field,
    QueryParseError,
>)
    ensures
        match measured_number(kind@, optional_text(*name), what@, demand@) {
            Ok(f) => r is Ok && r->Ok_0 == f,
            Err(m) => refused(r, m),
        },
{
    match measure_field(kind, name, what) {
        Err(e) => Err(e),
        Ok(f) => {
            if f.is_numeric_measure() {
                Ok(f)
            } else {
                let mut m = demand.to_owned();
                m.append(" (bytes or packets), got ");
                m.append(f.name());
                Err(QueryParseError::Invalid(m))
            }
        },
    }
}

impl RawMeasure {
    /// The requested error.
    pub fn error_spec(&self) -> (r: Result<ErrorSpec, QueryParseError>)
        ensures
            match error_meant(self.kind@, self.error) {
                Ok(e) => r is Ok && r->Ok_0 == e,
                Err(m) => refused(r, m),
            },
    {
        let default_bits: u64 = if same_text(self.kind.as_str(), "distinct_count") {
            DISTINCT_EPSILON_BITS
        } else {
            DEFAULT_EPSILON_BITS
        };
        let mut epsilon = Float64 { bits: default_bits };
        let mut delta = Float64 { bits: DEFAULT_DELTA_BITS };
        if let Some(e) = self.error {
            if let Some(x) = e.epsilon {
                epsilon = x;
            }
            if let Some(x) = e.delta {
                delta = x;
            }
        }
        if !epsilon.within_open_unit() {
            return Err(refuse("error.epsilon must be in (0, 1)"));
        }
        if !delta.within_open_unit() {
            return Err(refuse("error.delta must be in (0, 1)"));
        }
        Ok(ErrorSpec { epsilon, delta })
    }

    /// The measure.
    pub fn measure(&self) -> (r: Result<Measure, QueryParseError>)
        ensures
            match measure_meant(*self) {
                Ok(m) => r is Ok && r->Ok_0 == m,
                Err(m) => refused(r, m),
            },
    {
        let kind = self.kind.as_str();
        if same_text(kind, "count") {
            Ok(Measure::Count)
        } else if same_text(kind, "sum") {
            let name = if self.value.is_some() {
                &self.value
            } else {
                &self.field
            };
            match measure_number(
                kind,
                name,
                "a numeric `value` field",
                "sum requires a numeric field",
            ) {
                Ok(value) => Ok(Measure::Sum { value }),
                Err(e) => Err(e),
            }
        } else if same_text(kind, "heavy_hitters") {
            match measure_number(
                kind,
                &self.value,
                "a numeric `value` field",
                "heavy_hitters requires a numeric value field",
            ) {
                Ok(value) => {
                    let limit: usize = match self.limit {
                        Some(n) => n,
                        None => DEFAULT_LIMIT,
                    };
                    if limit == 0 {
                        Err(refuse("heavy_hitters limit must be positive"))
                    } else {
                        Ok(Measure::HeavyHitters { value, limit })
                    }
                },
                Err(e) => Err(e),
            }
        } else if same_text(kind, "distinct_count") {
            match measure_field(kind, &self.field, "a `field` to count distinct values of") {
                Ok(field) => Ok(Measure::DistinctCount { field }),
                Err(e) => Err(e),
            }
        } else if same_text(kind, "entropy") {
            match measure_field(kind, &self.field, "a `field`") {
                Ok(field) => Ok(Measure::Entropy { field }),
                Err(e) => Err(e),
            }
        } else if same_text(kind, "quantile") {
            match measure_number(
                kind,
                &self.field,
                "a numeric `field`",
                "quantile requires a numeric field",
            ) {
                Ok(field) => {
                    let q: Float64 = match self.q {
                        Some(q) => q,
                        None => Float64 { bits: MEDIAN_BITS },
                    };
                    Ok(Measure::Quantile { field, q })
                },
                Err(e) => Err(e),
            }
        } else {
            Err(
                about(
                    "unknown measure type ",
                    kind,
                    "; expected count, sum, heavy_hitters, distinct_count, entropy, or quantile",
                ),
            )
        }
    }
}

// ---------------------------------------------------------------------------
// The whole query
// ---------------------------------------------------------------------------

/// Why a measure does not go with the grouping, if it does not.
pub open spec fn grouping_fault(measure: Measure, group_by: Seq<Field>) -> Option<Seq<char>> {
    match measure {
        Measure::HeavyHitters { .. } => if group_by.len() == 0 {
            Some("heavy_hitters requires groupBy fields (the identities to rank)"@)
        } else {
            None
        },
        Measure::DistinctCount { field } => if group_by.contains(field) {
            Some("distinct_count field "@ + field.text() + " must not also appear in groupBy"@)
        } else {
            None
        },
        _ => None,
    }
}

pub open spec fn alert_meant(a: Option<RawAlert>) -> AlertSpec {
    match a {
        None => AlertSpec { gt: None, lt: None },
        Some(a) => AlertSpec { gt: a.gt, lt: a.lt },
    }
}

pub open spec fn export_meant(e: Option<RawExport>) -> ExportSpec {
    ExportSpec {
        prometheus: if e is Some && e->0.prometheus is Some {
            e->0.prometheus->0
        } else {
            default_export().prometheus
        },
        max_series: if e is Some && e->0.max_series is Some {
            e->0.max_series->0
        } else {
            default_export().max_series
        },
    }
}

pub open spec fn budget_meant(r: Option<RawResources>) -> Result<nat, Seq<char>> {
    match r {
        Some(RawResources { max_memory: Some(s) }) => memory_meant(s@),
        _ => Ok(DEFAULT_MAX_MEMORY_BYTES as nat),
    }
}

/// The query that a document means. The parts are checked in the order name,
/// window, grouping, filter, error, measure, export, memory; the first fault
/// is reported.
pub open spec fn query_meant(raw: RawQuery) -> Result<LogicalQueryView, Seq<char>> {
    if name_fault(raw.name@) is Some {
        Err(name_fault(raw.name@)->0)
    } else if raw.window.meant() is Err {
        Err(raw.window.meant()->Err_0)
    } else if fields_meant(raw.group_by@) is Err {
        Err(fields_meant(raw.group_by@)->Err_0)
    } else if filter_meant(raw.filter) is Err {
        Err(filter_meant(raw.filter)->Err_0)
    } else if error_meant(raw.measure.kind@, raw.measure.error) is Err {
        Err(error_meant(raw.measure.kind@, raw.measure.error)->Err_0)
    } else if measure_meant(raw.measure) is Err {
        Err(measure_meant(raw.measure)->Err_0)
    } else if grouping_fault(
        measure_meant(raw.measure)->Ok_0,
        fields_meant(raw.group_by@)->Ok_0,
    ) is Some {
        Err(
            grouping_fault(
                measure_meant(raw.measure)->Ok_0,
                fields_meant(raw.group_by@)->Ok_0,
            )->0,
        )
    } else if export_meant(raw.export).max_series == 0 {
        Err("export.maxSeries must be positive"@)
    } else if budget_meant(raw.resources) is Err {
        Err(budget_meant(raw.resources)->Err_0)
    } else {
        Ok(
            LogicalQueryView {
                name: raw.name@,
                filter: filter_meant(raw.filter)->Ok_0,
                group_by: fields_meant(raw.group_by@)->Ok_0,
                measure: measure_meant(raw.measure)->Ok_0,
                window: raw.window.meant()->Ok_0,
                error: error_meant(raw.measure.kind@, raw.measure.error)->Ok_0,
                alert: alert_meant(raw.alert_if),
                export: export_meant(raw.export),
                max_memory_bytes: budget_meant(raw.resources)->Ok_0 as u64,
            },
        )
    }
}

fn check_grouping(measure: &Measure, group_by: &Vec<Field>) -> (r: Option<QueryParseError>)
    ensures
        match grouping_fault(*measure, group_by@) {
            Some(m) => r is Some && r->0@ == QueryParseErrorView::Invalid(m),
            None => r is None,
        },
{
    match measure {
        Measure::HeavyHitters { .. } => {
            if group_by.len() == 0 {
                Some(refuse("heavy_hitters requires groupBy fields (the identities to rank)"))
            } else {
                None
            }
        },
        Measure::DistinctCount { field } => {
            let mut i: usize = 0;
            while i < group_by.len()
                invariant
                    i <= group_by@.len(),
                    forall|j: int| 0 <= j < i ==> group_by@[j] != *field,
                    *measure == (Measure::DistinctCount { field: *field }),
                decreases group_by@.len() - i,
            {
                if group_by[i] == *field {
                    assert(group_by@[i as int] == *field);
                    let mut m = "distinct_count field ".to_owned();
                    m.append(field.name());
                    m.append(" must not also appear in groupBy");
                    return Some(QueryParseError::Invalid(m));
                }
                i += 1;
            }
            None
        },
        _ => None,
    }
}

impl RawQuery {
    /// Validate the document.
    pub fn into_logical(self) -> (r: Result<LogicalQuery, QueryParseError>)
        ensures
            match query_meant(self) {
                Ok(q) => r is Ok && r->Ok_0@ == q,
                Err(m) => refused(r, m),
            },
    {
        let RawQuery { name, window, filter, group_by, measure, alert_if, export, resources } =
            self;
        if let Some(e) = check_name(name.as_str()) {
            return Err(e);
        }
        let window = match window.window_spec() {
            Ok(w) => w,
            Err(e) => {
                return Err(e);
            },
        };
        let group_by = match parse_fields(&group_by) {
            Ok(fields) => fields,
            Err(e) => {
                return Err(e);
            },
        };
        let filter = match filter {
            None => Predicate::default(),
            Some(m) => match m.into_predicate() {
                Ok(p) => p,
                Err(e) => {
                    return Err(e);
                },
            },
        };
        let error = match measure.error_spec() {
            Ok(e) => e,
            Err(e) => {
                return Err(e);
            },
        };
        let measure = match measure.measure() {
            Ok(m) => m,
            Err(e) => {
                return Err(e);
            },
        };
        if let Some(e) = check_grouping(&measure, &group_by) {
            return Err(e);
        }
        let alert = match alert_if {
            None => AlertSpec { gt: None, lt: None },
            Some(a) => AlertSpec { gt: a.gt, lt: a.lt },
        };
        let mut settings = ExportSpec::default();
        if let Some(e) = export {
            if let Some(p) = e.prometheus {
                settings.prometheus = p;
            }
            if let Some(n) = e.max_series {
                settings.max_series = n;
            }
        }
        if settings.max_series == 0 {
            return Err(refuse("export.maxSeries must be positive"));
        }
        let max_memory_bytes: u64 = match resources {
            Some(RawResources { max_memory: Some(s) }) => match parse_memory(s.as_str()) {
                Ok(n) => n,
                Err(e) => {
                    return Err(e);
                },
            },
            _ => DEFAULT_MAX_MEMORY_BYTES,
        };
        Ok(
            LogicalQuery {
                name,
                filter,
                group_by,
                measure,
                window,
                error,
                alert,
                export: settings,
                max_memory_bytes,
            },
        )
    }
}

// ---------------------------------------------------------------------------
// Laws
// ---------------------------------------------------------------------------

/// What every validated query guarantees to those that plan and run it.
pub open spec fn is_valid_query(q: LogicalQueryView) -> bool {
    &&& q.name.len() > 0
    &&& all_name_chars(q.name)
    &&& 0 < q.window.slide_nanos <= q.window.size_nanos
    &&& q.window.size_nanos as nat % q.window.slide_nanos as nat == 0
    &&& q.error.epsilon.in_open_unit()
    &&& q.error.delta.in_open_unit()
    &&& q.export.max_series > 0
    &&& match q.measure {
        Measure::Sum { value } => is_numeric(value),
        Measure::HeavyHitters { value, limit } => is_numeric(value) && limit > 0
            && q.group_by.len() > 0,
        Measure::DistinctCount { field } => !q.group_by.contains(field),
        Measure::Quantile { field, .. } => is_numeric(field),
        _ => true,
    }
}

/// A document that is taken means a valid query.
pub proof fn law_taken_query_is_valid(raw: RawQuery)
    ensures
        query_meant(raw) is Ok ==> is_valid_query(query_meant(raw)->Ok_0),
{
    lemma_trimmed_blank(raw.name@);
    if query_meant(raw) is Ok {
        let w = raw.window;
        lemma_duration_bound(w.size@);
        if w.slide is Some {
            lemma_duration_bound(w.slide->0@);
        }
    }
}

proof fn lemma_duration_bound(s: Seq<char>)
    ensures
        duration_meant(s) is Ok ==> duration_meant(s)->Ok_0 <= u64::MAX,
{
}

/// The leading digits of digits followed by something else.
pub proof fn lemma_leading_digits(digits: Seq<char>, rest: Seq<char>)
    requires
        all_digits(digits),
        rest.len() > 0,
        !is_digit(rest[0]),
    ensures
        leading_digits(digits + rest) == digits.len(),
    decreases digits.len(),
{
    let s = digits + rest;
    if digits.len() > 0 {
        assert(is_digit(digits[0]));
        assert(s[0] == digits[0]);
        assert(s.drop_first() =~= digits.drop_first() + rest);
        assert forall|i: int| 0 <= i < digits.drop_first().len() implies is_digit(
            #[trigger] digits.drop_first()[i],
        ) by {
            assert(digits.drop_first()[i] == digits[i + 1]);
        }
        lemma_leading_digits(digits.drop_first(), rest);
    } else {
        assert(s =~= rest);
    }
}

/// A number followed by a unit means that many units.
pub proof fn lemma_number_with_unit(n: nat, unit: Seq<char>)
    requires
        unit.len() > 0,
        !is_digit(unit[0]),
        !is_space(unit.last()),
        duration_scale(unit) is Some,
        n * duration_scale(unit)->0 <= u64::MAX,
    ensures
        duration_meant(dec(n) + unit) == Ok::<nat, Seq<char>>(n * duration_scale(unit)->0),
{
    let s = dec(n) + unit;
    let scale = duration_scale(unit)->0;
    lemma_dec_digits(n);
    assert(is_digit(dec(n)[0]));
    assert(s[0] == dec(n)[0]);
    assert(s.last() == unit.last());
    assert(trimmed(s) == s);
    lemma_leading_digits(dec(n), unit);
    assert(s.take(dec(n).len() as int) =~= dec(n));
    assert(s.skip(dec(n).len() as int) =~= unit);
    assert(n <= n * scale) by (nonlinear_arith)
        requires
            scale >= 1,
    ;
    law_decimal_round_trip(n, u64::MAX as nat);
}

/// A duration that was written for people reads back as itself.
pub proof fn law_humanized_duration_reads_back(nanos: nat)
    requires
        nanos <= u64::MAX,
    ensures
        duration_meant(humanized(nanos)) == Ok::<nat, Seq<char>>(nanos),
{
    reveal_strlit("h");
    reveal_strlit("m");
    reveal_strlit("s");
    reveal_strlit("ms");
    reveal_strlit("ns");
    reveal_strlit("us");
    assert("h"@[0] == 'h' && "m"@[0] == 'm' && "s"@[0] == 's');
    assert("ms"@[0] == 'm' && "ms"@[1] == 's' && "ns"@[0] == 'n' && "ns"@[1] == 's');
    assert("us"@[0] == 'u');
    assert("h"@.len() == 1 && "m"@.len() == 1 && "s"@.len() == 1 && "ms"@.len() == 2
        && "ns"@.len() == 2 && "us"@.len() == 2);
    if nanos % 3_600_000_000_000 == 0 && nanos >= 3_600_000_000_000 {
        assert(duration_scale("h"@) == Some(3_600_000_000_000nat));
        assert((nanos / 3_600_000_000_000) * 3_600_000_000_000 == nanos);
        lemma_number_with_unit(nanos / 3_600_000_000_000, "h"@);
    } else if nanos % 60_000_000_000 == 0 && nanos >= 120_000_000_000 {
        assert(duration_scale("m"@) == Some(60_000_000_000nat));
        assert((nanos / 60_000_000_000) * 60_000_000_000 == nanos);
        lemma_number_with_unit(nanos / 60_000_000_000, "m"@);
    } else if nanos % 1_000_000_000 == 0 {
        assert(duration_scale("s"@) == Some(1_000_000_000nat));
        assert((nanos / 1_000_000_000) * 1_000_000_000 == nanos);
        lemma_number_with_unit(nanos / 1_000_000_000, "s"@);
    } else if nanos % 1_000_000 == 0 {
        assert(duration_scale("ms"@) == Some(1_000_000nat));
        assert((nanos / 1_000_000) * 1_000_000 == nanos);
        lemma_number_with_unit(nanos / 1_000_000, "ms"@);
    } else {
        assert(duration_scale("ns"@) == Some(1nat));
        assert(nanos * 1 == nanos);
        lemma_number_with_unit(nanos, "ns"@);
    }
}

} // verus!
