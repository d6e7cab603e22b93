//! Pure parts of the outbound MQTT publisher: topic construction with
//! per-segment sanitising, broker URL parsing, and the choice of the
//! publisher's connection settings from the configured MQTT channels.
use vstd::prelude::*;

use crate::text::{
    after_last, chars_of, contains_char, has_prefix, lemma_after_last, lemma_up_to_first, lower, push_char,
    starts_with, string_of_range, to_ascii_lower, up_to_first, split_at_char,
    lemma_split_append, lemma_split_append_piece, decimal, is_digit, digits_value,
    lemma_decimal_value,
};

verus! {

/// Characters that may not appear inside one topic level: the level
/// separator `/`, the wildcards `+` and `#`, space, tab, newline, CR and the
/// ASCII control characters (0x00-0x1F, 0x7F).
pub open spec fn is_illegal_topic(c: char) -> bool {
    ||| c == '/'
    ||| c == '+'
    ||| c == '#'
    ||| c == ' '
    ||| c == '\t'
    ||| c == '\n'
    ||| c == '\r'
    ||| (c as u32) <= 0x1F
    ||| (c as u32) == 0x7F
}

/// One character of a sanitised segment.
pub open spec fn sanitize_char(c: char) -> char {
    if is_illegal_topic(c) {
        '_'
    } else {
        lower(c)
    }
}

/// A sanitised topic segment: illegal characters become `_`, the rest is
/// ASCII lower-cased.
pub open spec fn sanitized(s: Seq<char>) -> Seq<char> {
    s.map_values(|c: char| sanitize_char(c))
}

/// Topic levels joined with `/`.
pub open spec fn join_levels(levels: Seq<Seq<char>>) -> Seq<char>
    decreases levels.len(),
{
    if levels.len() == 0 {
        Seq::empty()
    } else if levels.len() == 1 {
        levels[0]
    } else {
        join_levels(levels.drop_last()) + seq!['/'] + levels.last()
    }
}

/// The fixed first level of every topic this runtime publishes: `zeroclaw/`.
pub open spec fn topic_root() -> Seq<char> {
    seq!['z', 'e', 'r', 'o', 'c', 'l', 'a', 'w', '/']
}

/// The topic for `parts`: `zeroclaw/` followed by the sanitised parts
/// joined with `/`.
pub open spec fn topic_of(parts: Seq<Seq<char>>) -> Seq<char> {
    topic_root() + join_levels(parts.map_values(|p: Seq<char>| sanitized(p)))
}

/// The views of a slice of string slices.
pub open spec fn str_views(parts: Seq<&str>) -> Seq<Seq<char>> {
    parts.map_values(|p: &str| p@)
}

fn is_illegal_topic_char(c: char) -> (r: bool)
    ensures
        r == is_illegal_topic(c),
{
    if c == '/' || c == '+' || c == '#' || c == ' ' || c == '\t' || c == '\n' || c == '\r' {
        return true;
    }
    let u = c as u32;
    if u <= 0x1F || u == 0x7F {
        return true;
    }
    false
}

/// Sanitises one topic segment: ASCII lower-case, with every character
/// that is illegal in a topic level replaced by `_`.
fn sanitize_segment(segment: &str) -> (r: String)
    ensures
        r@ == sanitized(segment@),
{
    let v = chars_of(segment);
    let mut r = String::new();
    for i in 0..v.len()
        invariant
            v@ == segment@,
            r@ == sanitized(v@.take(i as int)),
    {
        let c = v[i];
        let d = if is_illegal_topic_char(c) {
            '_'
        } else {
            to_ascii_lower(c)
        };
        push_char(&mut r, d);
        assert(sanitized(v@.take(i + 1)) == sanitized(v@.take(i as int)).push(d));
    }
    assert(v@.take(v@.len() as int) == v@);
    r
}

/// Builds a topic from `parts`: `zeroclaw/` followed by each part,
/// sanitised, joined with `/`.
pub fn topic_for(parts: &[&str]) -> (r: String)
    ensures
        r@ == topic_of(str_views(parts@)),
{
    let mut r = String::new();
    let root = "zeroclaw/";
    proof {
        reveal_strlit("zeroclaw/");
    }
    r.append(root);
    assert(r@ == topic_root());
    let ghost views = str_views(parts@);
    let ghost segs = views.map_values(|p: Seq<char>| sanitized(p));
    for i in 0..parts.len()
        invariant
            views == str_views(parts@),
            segs == views.map_values(|p: Seq<char>| sanitized(p)),
            segs.len() == parts@.len(),
            r@ == topic_root() + join_levels(segs.take(i as int)),
    {
        if i > 0 {
            push_char(&mut r, '/');
        }
        let seg = sanitize_segment(parts[i]);
        r.append(seg.as_str());
        assert(segs.take(i + 1).drop_last() == segs.take(i as int));
        assert(segs[i as int] == sanitized(parts@[i as int]@));
        if i == 0 {
            assert(segs.take(0) == Seq::<Seq<char>>::empty());
        }
    }
    assert(segs.take(parts@.len() as int) == segs);
    r
}

/// `mqtt://`
pub open spec fn mqtt_scheme() -> Seq<char> {
    seq!['m', 'q', 't', 't', ':', '/', '/']
}

/// `mqtts://`
pub open spec fn mqtts_scheme() -> Seq<char> {
    seq!['m', 'q', 't', 't', 's', ':', '/', '/']
}

/// The broker URL with a leading `mqtt://` or `mqtts://` removed.
pub open spec fn without_scheme(url: Seq<char>) -> Seq<char> {
    if has_prefix(url, mqtt_scheme()) {
        url.skip(7)
    } else if has_prefix(url, mqtts_scheme()) {
        url.skip(8)
    } else {
        url
    }
}

/// The digits of an unsigned number: one leading `+` is allowed when
/// something follows it.
pub open spec fn unsigned_digits(s: Seq<char>) -> Seq<char> {
    if s.len() > 1 && s[0] == '+' {
        s.drop_first()
    } else {
        s
    }
}

/// `s.parse::<u16>()`: an optional `+`, then one or more ASCII digits whose
/// value fits in 16 bits.
pub open spec fn parse_u16(s: Seq<char>) -> Option<u16> {
    let d = unsigned_digits(s);
    if d.len() > 0 && (forall|i: int| 0 <= i < d.len() ==> is_digit(#[trigger] d[i]))
        && digits_value(d) <= 0xFFFF {
        Some(digits_value(d) as u16)
    } else {
        None
    }
}

/// The host of a broker URL: the text before the first `:` once the scheme
/// is removed.
pub open spec fn broker_host_of(url: Seq<char>) -> Seq<char> {
    up_to_first(without_scheme(url), ':')
}

/// The port used when the URL names none: 8883 for `mqtts://`, else 1883.
pub open spec fn default_port(url: Seq<char>) -> u16 {
    if has_prefix(url, mqtts_scheme()) {
        8883
    } else {
        1883
    }
}

/// The port of a broker URL: once the scheme is removed, the text after the
/// last `:` when there is a `:` and that text parses as a port number;
/// otherwise (no port given, or not a port number) the scheme's default port.
pub open spec fn broker_port_of(url: Seq<char>) -> u16 {
    let w = without_scheme(url);
    if contains_char(w, ':') {
        match parse_u16(after_last(w, ':')) {
            Some(p) => p,
            None => default_port(url),
        }
    } else {
        default_port(url)
    }
}

proof fn lemma_digits_monotone(d: Seq<char>, i: int)
    requires
        0 <= i <= d.len(),
        forall|k: int| 0 <= k < d.len() ==> is_digit(#[trigger] d[k]),
    ensures
        digits_value(d.take(i)) <= digits_value(d),
    decreases d.len() - i,
{
    if i == d.len() {
        assert(d.take(i) =~= d);
    } else {
        lemma_digits_monotone(d, i + 1);
        assert(d.take(i + 1).drop_last() =~= d.take(i));
    }
}

/// Length of the scheme prefix of `v`: 7 for `mqtt://`, 8 for `mqtts://`,
/// else 0.
fn scheme_len(v: &[char]) -> (r: usize)
    ensures
        r <= v@.len(),
        v@.skip(r as int) == without_scheme(v@),
        r == 8 <==> has_prefix(v@, mqtts_scheme()),
{
    let mqtt = ['m', 'q', 't', 't', ':', '/', '/'];
    let mqtts = ['m', 'q', 't', 't', 's', ':', '/', '/'];
    assert(mqtt@ == mqtt_scheme());
    assert(mqtts@ == mqtts_scheme());
    if starts_with(v, mqtt.as_slice()) {
        proof {
            if has_prefix(v@, mqtts_scheme()) {
                assert(v@.take(8)[4] == v@.take(7)[4]);
            }
        }
        7
    } else if starts_with(v, mqtts.as_slice()) {
        8
    } else {
        assert(v@.skip(0) =~= v@);
        0
    }
}

/// Parses `v[a..b]` as a `u16` the way `str::parse::<u16>` does.
fn parse_u16_range(v: &[char], a: usize, b: usize) -> (r: Option<u16>)
    requires
        a <= b <= v@.len(),
    ensures
        r == parse_u16(v@.subrange(a as int, b as int)),
{
    let ghost s = v@.subrange(a as int, b as int);
    let mut start = a;
    if b - a > 1 && v[a] == '+' {
        start = a + 1;
    }
    let ghost d = v@.subrange(start as int, b as int);
    assert(d =~= unsigned_digits(s));
    if start == b {
        return None;
    }
    let mut val: u32 = 0;
    let mut i = start;
    while i < b
        invariant
            a <= start <= i <= b <= v@.len(),
            d == v@.subrange(start as int, b as int),
            d == unsigned_digits(v@.subrange(a as int, b as int)),
            d.len() > 0,
            val as nat == digits_value(d.take(i - start)),
            val <= 0xFFFF,
            forall|k: int| 0 <= k < i - start ==> is_digit(#[trigger] d[k]),
        decreases b - i,
    {
        let c = v[i];
        if !('0' <= c && c <= '9') {
            assert(!is_digit(d[i - start]));
            return None;
        }
        let dig = (c as u32) - 48;
        assert(d.take(i - start + 1).drop_last() =~= d.take(i - start));
        assert(d.take(i - start + 1).last() == c);
        let nv = val * 10 + dig;
        if nv > 0xFFFF {
            proof {
                if forall|k: int| 0 <= k < d.len() ==> is_digit(#[trigger] d[k]) {
                    lemma_digits_monotone(d, i - start + 1);
                }
            }
            return None;
        }
        val = nv;
        i = i + 1;
    }
    assert(d.take(b - start) =~= d);
    Some(val as u16)
}

/// Extracts the host from a broker URL (`mqtt://host:port` or
/// `mqtts://host:port`).
pub fn broker_host(url: &str) -> (r: String)
    ensures
        r@ == broker_host_of(url@),
{
    let v = chars_of(url);
    let s = scheme_len(v.as_slice());
    let mut i = s;
    while i < v.len() && v[i] != ':'
        invariant
            s <= i <= v@.len(),
            forall|k: int| s <= k < i ==> v@[k] != ':',
        decreases v.len() - i,
    {
        i = i + 1;
    }
    proof {
        let w = v@.skip(s as int);
        lemma_up_to_first(w, ':', i - s);
        assert(w.take(i - s) =~= v@.subrange(s as int, i as int));
    }
    string_of_range(v.as_slice(), s, i)
}

/// Extracts the port from a broker URL, defaulting to 1883 for `mqtt://`
/// and 8883 for `mqtts://`.
pub fn broker_port(url: &str) -> (r: u16)
    ensures
        r == broker_port_of(url@),
{
    let v = chars_of(url);
    let s = scheme_len(v.as_slice());
    let is_tls = s == 8;
    let default_port: u16 = if is_tls {
        8883
    } else {
        1883
    };
    let mut j = v.len();
    while j > s && v[j - 1] != ':'
        invariant
            s <= j <= v@.len(),
            forall|k: int| j <= k < v@.len() ==> v@[k] != ':',
        decreases j,
    {
        j = j - 1;
    }
    proof {
        let w = v@.skip(s as int);
        lemma_after_last(w, ':', j - s);
        assert(w.skip(j - s) =~= v@.subrange(j as int, v@.len() as int));
        if j > s {
            assert(w[j - s - 1] == v@[j - 1]);
        } else {
            assert forall|k: int| 0 <= k < w.len() implies w[k] != ':' by {
                assert(w[k] == v@[s + k]);
            }
        }
    }
    if j == s {
        return default_port;
    }
    match parse_u16_range(v.as_slice(), j, v.len()) {
        Some(p) => p,
        None => default_port,
    }
}

/// The settings of one `[channels.mqtt.*]` entry that the publisher reads.
pub struct MqttChannelConfig {
    pub enabled: bool,
    pub broker_url: String,
    pub client_id: String,
    pub username: Option<String>,
    pub password: Option<String>,
    pub use_tls: bool,
    pub keep_alive_secs: u64,
}

/// Connection settings of the publisher client.
pub struct PublisherSettings {
    /// `<client_id>-pub`, so the publisher never collides with the
    /// channel's own subscriber connection.
    pub client_id: String,
    pub host: String,
    pub port: u16,
    pub keep_alive_secs: u64,
    /// Login, present only when both user name and password are configured.
    pub credentials: Option<(String, String)>,
    pub use_tls: bool,
}

/// What publisher initialisation has to do.
pub enum PublisherInit {
    /// A client is already installed: the first successful call wins.
    AlreadyInitialized,
    /// No MQTT channel is enabled: publishing stays a no-op.
    NoEnabledChannel,
    /// Connect with these settings.
    Connect(PublisherSettings),
}

/// `-pub`
pub open spec fn publisher_suffix() -> Seq<char> {
    seq!['-', 'p', 'u', 'b']
}

/// `s` holds the publisher settings derived from channel `cfg`.
pub open spec fn settings_for(cfg: MqttChannelConfig, s: PublisherSettings) -> bool {
    &&& s.client_id@ == cfg.client_id@ + publisher_suffix()
    &&& s.host@ == broker_host_of(cfg.broker_url@)
    &&& s.port == broker_port_of(cfg.broker_url@)
    &&& s.keep_alive_secs == cfg.keep_alive_secs
    &&& s.use_tls == cfg.use_tls
    &&& (s.credentials is Some <==> (cfg.username is Some && cfg.password is Some))
    &&& (s.credentials matches Some(login) ==> login.0@ == cfg.username->0@ && login.1@
        == cfg.password->0@)
}

/// Index `i` is the first enabled channel of `chs`.
pub open spec fn is_first_enabled(chs: Seq<MqttChannelConfig>, i: int) -> bool {
    &&& 0 <= i < chs.len()
    &&& chs[i].enabled
    &&& forall|j: int| 0 <= j < i ==> !(#[trigger] chs[j]).enabled
}

/// The publisher settings for one channel.
pub fn publisher_settings(cfg: &MqttChannelConfig) -> (s: PublisherSettings)
    ensures
        settings_for(*cfg, s),
        s.use_tls == cfg.use_tls,
        s.keep_alive_secs == cfg.keep_alive_secs,
{
    let mut client_id = cfg.client_id.clone();
    let suffix = "-pub";
    proof {
        reveal_strlit("-pub");
        assert(suffix@ =~= publisher_suffix());
    }
    client_id.append(suffix);
    let mut credentials: Option<(String, String)> = None;
    if let Some(user) = &cfg.username {
        if let Some(pass) = &cfg.password {
            credentials = Some((user.clone(), pass.clone()));
        }
    }
    PublisherSettings {
        client_id,
        host: broker_host(cfg.broker_url.as_str()),
        port: broker_port(cfg.broker_url.as_str()),
        keep_alive_secs: cfg.keep_alive_secs,
        credentials,
        use_tls: cfg.use_tls,
    }
}

/// Decides what publisher initialisation does: nothing when a client is
/// already installed, nothing when no channel is enabled, else connect with
/// the settings of the first enabled channel.
pub fn plan_publisher_init(initialized: bool, channels: &[MqttChannelConfig]) -> (r:
    PublisherInit)
    ensures
        initialized ==> r is AlreadyInitialized,
        !initialized && (forall|i: int| 0 <= i < channels@.len() ==> !(#[trigger] channels@[i]).enabled)
            ==> r is NoEnabledChannel,
        !initialized && (exists|i: int| 0 <= i < channels@.len() && (#[trigger] channels@[i]).enabled)
            ==> (r matches PublisherInit::Connect(s) && exists|i: int|
            is_first_enabled(channels@, i) && settings_for(#[trigger] channels@[i], s)),
{
    if initialized {
        return PublisherInit::AlreadyInitialized;
    }
    let mut i: usize = 0;
    while i < channels.len()
        invariant
            !initialized,
            i <= channels@.len(),
            forall|j: int| 0 <= j < i ==> !(#[trigger] channels@[j]).enabled,
        decreases channels.len() - i,
    {
        if channels[i].enabled {
            let s = publisher_settings(&channels[i]);
            assert(is_first_enabled(channels@, i as int));
            return PublisherInit::Connect(s);
        }
        i = i + 1;
    }
    PublisherInit::NoEnabledChannel
}

/// `zeroclaw`, the first level of every topic.
pub open spec fn root_level() -> Seq<char> {
    seq!['z', 'e', 'r', 'o', 'c', 'l', 'a', 'w']
}

/// Law: a sanitised segment is as long as the segment, holds no character
/// that is illegal in a topic level (so no `/`, `+` or `#`), and
/// sanitising it again changes nothing.
pub proof fn lemma_sanitized_segment(s: Seq<char>)
    ensures
        sanitized(s).len() == s.len(),
        forall|i: int| 0 <= i < s.len() ==> !is_illegal_topic(#[trigger] sanitized(s)[i]),
        sanitized(sanitized(s)) == sanitized(s),
{
    assert forall|i: int| 0 <= i < s.len() implies !is_illegal_topic(#[trigger] sanitized(s)[i])
        && sanitize_char(sanitized(s)[i]) == sanitized(s)[i] by {
        let c = s[i];
        if !is_illegal_topic(c) && 'A' <= c <= 'Z' {
            assert(((c as u32) + 32) as char == lower(c));
        }
    }
    assert(sanitized(sanitized(s)) =~= sanitized(s));
}

proof fn lemma_split_join(a: Seq<char>, segs: Seq<Seq<char>>)
    requires
        segs.len() > 0,
        forall|k: int, i: int|
            0 <= k < segs.len() && 0 <= i < segs[k].len() ==> #[trigger] segs[k][i] != '/',
    ensures
        split_at_char(a + seq!['/'] + join_levels(segs), '/') == split_at_char(a, '/') + segs,
    decreases segs.len(),
{
    if segs.len() == 1 {
        assert(join_levels(segs) == segs[0]);
        assert forall|i: int| 0 <= i < segs[0].len() implies segs[0][i] != '/' by {
            assert(segs[0][i] == segs[0][i]);
        }
        lemma_split_append_piece(a, segs[0], '/');
        assert(split_at_char(a, '/').push(segs[0]) =~= split_at_char(a, '/') + segs);
    } else {
        let init = segs.drop_last();
        let last = segs.last();
        assert forall|k: int, i: int|
            0 <= k < init.len() && 0 <= i < init[k].len() implies #[trigger] init[k][i] != '/' by {
            assert(init[k] == segs[k]);
        }
        lemma_split_join(a, init);
        assert forall|i: int| 0 <= i < last.len() implies last[i] != '/' by {
            assert(segs[segs.len() - 1][i] == last[i]);
        }
        let head = a + seq!['/'] + join_levels(init);
        lemma_split_append_piece(head, last, '/');
        assert(a + seq!['/'] + join_levels(segs) =~= head + seq!['/'] + last);
        assert((split_at_char(a, '/') + init).push(last) =~= split_at_char(a, '/') + segs);
    }
}

/// The sanitised parts of a topic.
pub open spec fn sanitized_parts(parts: Seq<Seq<char>>) -> Seq<Seq<char>> {
    parts.map_values(|p: Seq<char>| sanitized(p))
}

/// Law: the levels of a topic built from one or more parts are exactly
/// `zeroclaw` followed by the sanitised parts: no part can add, remove or
/// merge a level.
pub proof fn lemma_topic_levels(parts: Seq<Seq<char>>)
    requires
        parts.len() > 0,
    ensures
        split_at_char(topic_of(parts), '/') == seq![root_level()] + sanitized_parts(parts),
{
    let segs = sanitized_parts(parts);
    assert forall|k: int, i: int|
        0 <= k < segs.len() && 0 <= i < segs[k].len() implies #[trigger] segs[k][i] != '/' by {
        lemma_sanitized_segment(parts[k]);
        assert(segs[k] == sanitized(parts[k]));
        assert(!is_illegal_topic(sanitized(parts[k])[i]));
    }
    lemma_split_join(root_level(), segs);
    lemma_split_append(Seq::<char>::empty(), root_level(), '/');
    assert(Seq::<char>::empty() + root_level() =~= root_level());
    assert(split_at_char(Seq::<char>::empty(), '/') == seq![Seq::<char>::empty()]);
    assert(split_at_char(root_level(), '/') =~= seq![root_level()]);
    assert(topic_of(parts) =~= root_level() + seq!['/'] + join_levels(segs));
}

proof fn lemma_join_has_no_wildcard(segs: Seq<Seq<char>>)
    requires
        forall|k: int, i: int|
            0 <= k < segs.len() && 0 <= i < segs[k].len() ==> #[trigger] segs[k][i] != '+'
                && segs[k][i] != '#',
    ensures
        forall|i: int|
            0 <= i < join_levels(segs).len() ==> #[trigger] join_levels(segs)[i] != '+'
                && join_levels(segs)[i] != '#',
    decreases segs.len(),
{
    if segs.len() > 1 {
        let init = segs.drop_last();
        assert forall|k: int, i: int|
            0 <= k < init.len() && 0 <= i < init[k].len() implies #[trigger] init[k][i] != '+'
            && init[k][i] != '#' by {
            assert(init[k] == segs[k]);
        }
        lemma_join_has_no_wildcard(init);
        let j = join_levels(segs);
        let ji = join_levels(init);
        assert forall|i: int| 0 <= i < j.len() implies #[trigger] j[i] != '+' && j[i] != '#' by {
            if i < ji.len() {
                assert(j[i] == ji[i]);
            } else if i > ji.len() {
                assert(j[i] == segs[segs.len() - 1][i - ji.len() - 1]);
            }
        }
    } else if segs.len() == 1 {
        assert forall|i: int| 0 <= i < segs[0].len() implies segs[0][i] != '+' && segs[0][i]
            != '#' by {
            assert(segs[0][i] == segs[0][i]);
        }
    }
}

/// Law: a built topic never holds a wildcard (`+` or `#`), so publishing
/// to it can never address more than one topic.
pub proof fn lemma_topic_has_no_wildcard(parts: Seq<Seq<char>>)
    ensures
        forall|i: int|
            0 <= i < topic_of(parts).len() ==> #[trigger] topic_of(parts)[i] != '+' && topic_of(
                parts,
            )[i] != '#',
{
    let segs = sanitized_parts(parts);
    assert forall|k: int, i: int|
        0 <= k < segs.len() && 0 <= i < segs[k].len() implies #[trigger] segs[k][i] != '+'
        && segs[k][i] != '#' by {
        lemma_sanitized_segment(parts[k]);
        assert(segs[k] == sanitized(parts[k]));
        assert(!is_illegal_topic(sanitized(parts[k])[i]));
    }
    lemma_join_has_no_wildcard(segs);
    let t = topic_of(parts);
    assert forall|i: int| 0 <= i < t.len() implies #[trigger] t[i] != '+' && t[i] != '#' by {
        if i >= 9 {
            assert(t[i] == join_levels(segs)[i - 9]);
        }
    }
}

proof fn lemma_host_port_split(host: Seq<char>, d: Seq<char>)
    requires
        forall|i: int| 0 <= i < host.len() ==> host[i] != ':',
        forall|i: int| 0 <= i < d.len() ==> is_digit(#[trigger] d[i]),
    ensures
        up_to_first(host + seq![':'] + d, ':') == host,
        after_last(host + seq![':'] + d, ':') == d,
{
    let w = host + seq![':'] + d;
    assert(w[host.len() as int] == ':');
    assert forall|k: int| 0 <= k < host.len() implies w[k] != ':' by {
        assert(w[k] == host[k]);
    }
    lemma_up_to_first(w, ':', host.len() as int);
    assert(w.take(host.len() as int) =~= host);
    assert forall|k: int| host.len() + 1 <= k < w.len() implies w[k] != ':' by {
        assert(w[k] == d[k - host.len() - 1]);
        assert(is_digit(d[k - host.len() - 1]));
    }
    lemma_after_last(w, ':', host.len() + 1int);
    assert(w.skip(host.len() + 1int) =~= d);
}

proof fn lemma_scheme_strip(w: Seq<char>)
    ensures
        without_scheme(mqtt_scheme() + w) == w,
        !has_prefix(mqtt_scheme() + w, mqtts_scheme()),
        without_scheme(mqtts_scheme() + w) == w,
        has_prefix(mqtts_scheme() + w, mqtts_scheme()),
{
    let u1 = mqtt_scheme() + w;
    assert(u1.take(7) =~= mqtt_scheme());
    assert(u1.skip(7) =~= w);
    assert(u1[4] == ':');
    if has_prefix(u1, mqtts_scheme()) {
        assert(u1.take(8)[4] == u1[4]);
    }
    let u2 = mqtts_scheme() + w;
    assert(u2.take(8) =~= mqtts_scheme());
    assert(u2.skip(8) =~= w);
    assert(u2[4] == 's');
    if has_prefix(u2, mqtt_scheme()) {
        assert(u2.take(7)[4] == u2[4]);
    }
}

/// Law: a broker URL `mqtt://<host>:<port>` or `mqtts://<host>:<port>`,
/// with a host free of `:`, gives back exactly that host and port.
pub proof fn lemma_broker_url_round_trip(host: Seq<char>, port: u16)
    requires
        forall|i: int| 0 <= i < host.len() ==> host[i] != ':',
    ensures
        broker_host_of(mqtt_scheme() + host + seq![':'] + decimal(port as nat)) == host,
        broker_port_of(mqtt_scheme() + host + seq![':'] + decimal(port as nat)) == port,
        broker_host_of(mqtts_scheme() + host + seq![':'] + decimal(port as nat)) == host,
        broker_port_of(mqtts_scheme() + host + seq![':'] + decimal(port as nat)) == port,
{
    let d = decimal(port as nat);
    lemma_decimal_value(port as nat);
    lemma_host_port_split(host, d);
    let w = host + seq![':'] + d;
    lemma_scheme_strip(w);
    assert(w[host.len() as int] == ':');
    assert(contains_char(w, ':'));
    assert(is_digit(d[0]));
    assert(unsigned_digits(d) == d);
    assert(parse_u16(d) == Some(port));
    assert(mqtt_scheme() + host + seq![':'] + d =~= mqtt_scheme() + w);
    assert(mqtts_scheme() + host + seq![':'] + d =~= mqtts_scheme() + w);
}

/// Law: a broker URL that names no port (no `:` after the scheme) gets the
/// scheme's default port: 1883 for `mqtt://`, 8883 for `mqtts://`, 1883 for
/// anything else.
pub proof fn lemma_broker_port_default(rest: Seq<char>)
    requires
        !contains_char(rest, ':'),
    ensures
        broker_port_of(mqtt_scheme() + rest) == 1883,
        broker_port_of(mqtts_scheme() + rest) == 8883,
{
    lemma_scheme_strip(rest);
}

/// Law: the publisher keeps the channel's TLS choice and keep-alive, its
/// client id is the channel's with `-pub` appended (so it is never the
/// channel's own id), and it logs in exactly when the channel has both a
/// user name and a password, with those.
pub proof fn lemma_settings_follow_channel(cfg: MqttChannelConfig, s: PublisherSettings)
    requires
        settings_for(cfg, s),
    ensures
        s.use_tls == cfg.use_tls,
        s.keep_alive_secs == cfg.keep_alive_secs,
        s.client_id@ == cfg.client_id@ + "-pub"@,
        s.client_id@.len() == cfg.client_id@.len() + 4,
        s.client_id@.take(cfg.client_id@.len() as int) == cfg.client_id@,
        s.client_id@ != cfg.client_id@,
        s.client_id@.last() == 'b',
        cfg.username is Some && cfg.password is Some <==> s.credentials is Some,
        s.credentials matches Some(l) ==> l.0@ == cfg.username->0@ && l.1@ == cfg.password->0@,
{
    reveal_strlit("-pub");
    assert(publisher_suffix() =~= "-pub"@);
    assert(s.client_id@.take(cfg.client_id@.len() as int) =~= cfg.client_id@);
}

/// Law: initialisation connects with the TLS choice and keep-alive of the
/// first enabled channel.
pub proof fn lemma_init_uses_first_enabled_channel(
    chs: Seq<MqttChannelConfig>,
    i: int,
    s: PublisherSettings,
)
    requires
        is_first_enabled(chs, i),
        settings_for(chs[i], s),
    ensures
        forall|j: int| is_first_enabled(chs, j) ==> j == i,
        s.use_tls == chs[i].use_tls,
        s.keep_alive_secs == chs[i].keep_alive_secs,
        chs[i].enabled,
{
    assert forall|j: int| is_first_enabled(chs, j) implies j == i by {
        if j < i {
            assert(!chs[j].enabled);
        }
        if i < j {
            assert(!chs[i].enabled);
        }
    }
}

} // verus!
