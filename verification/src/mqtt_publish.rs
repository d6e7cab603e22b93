//! The `mqtt_publish` tool: argument checks, the per-session publish rate
//! limit and the result reported to the calling agent. The publish itself
//! is performed by the caller between [`MqttPublishTool::prepare_publish`]
//! and [`publish_outcome`].
use vstd::prelude::*;

use crate::text::{decimal, push_decimal, trim, trim_str};

verus! {

/// Maximum number of `mqtt_publish` calls allowed per calendar minute for a
/// single agent session.
pub const MAX_PUBLISHES_PER_MINUTE: u32 = 60;

/// The rate-limit window of a tool: the calendar minute (unix seconds / 60)
/// it counts for and the publishes consumed in it.
pub struct RateWindow {
    pub minute: u64,
    pub count: u32,
}

/// Tool that lets an agent (or SOP) publish an arbitrary message to the
/// MQTT event bus. It is constructed per agent session, so the rate-limit
/// window lives in the tool and resets with the session.
pub struct MqttPublishTool {
    minute: u64,
    count: u32,
}

impl View for MqttPublishTool {
    type V = RateWindow;

    closed spec fn view(&self) -> RateWindow {
        RateWindow { minute: self.minute, count: self.count }
    }
}

/// The outcome of one rate-limit check made at unix time `now_secs` on
/// window `w`: the next window, and whether the publish may proceed. A new
/// calendar minute starts a fresh window in which this publish is the
/// first; within the same minute a publish is allowed while fewer than
/// [`MAX_PUBLISHES_PER_MINUTE`] were consumed, and a refused one consumes
/// nothing.
pub open spec fn rate_step(w: RateWindow, now_secs: u64) -> (RateWindow, bool) {
    let m = now_secs / 60;
    if m != w.minute {
        (RateWindow { minute: m, count: 1 }, true)
    } else if w.count + 1 > MAX_PUBLISHES_PER_MINUTE {
        (w, false)
    } else {
        (RateWindow { minute: w.minute, count: (w.count + 1) as u32 }, true)
    }
}

/// The message of a refused publish in calendar minute `minute`.
pub open spec fn rate_limit_message(minute: nat) -> Seq<char> {
    "mqtt_publish rate limit exceeded: max "@ + decimal(MAX_PUBLISHES_PER_MINUTE as nat)
        + " publishes per minute (calendar minute "@ + decimal(minute) + "); retry shortly"@
}

impl MqttPublishTool {
    #[verifier::type_invariant]
    spec fn window_inv(self) -> bool {
        self.count <= MAX_PUBLISHES_PER_MINUTE
    }

    /// Well-formed windows never count more than the limit.
    pub open spec fn valid_window(w: RateWindow) -> bool {
        w.count <= MAX_PUBLISHES_PER_MINUTE
    }

    /// A tool with an empty window at minute 0.
    pub fn new() -> (t: Self)
        ensures
            t@ == (RateWindow { minute: 0, count: 0 }),
    {
        MqttPublishTool { minute: 0, count: 0 }
    }

    /// The current rate-limit window, which never counts more than the
    /// limit.
    pub fn window(&self) -> (w: RateWindow)
        ensures
            w == self@,
            Self::valid_window(w),
    {
        proof {
            use_type_invariant(self);
        }
        RateWindow { minute: self.minute, count: self.count }
    }

    /// Decides whether a publish at unix time `now_secs` is allowed under
    /// the per-minute rate limit, consuming one slot if so. A refused
    /// publish consumes nothing and reports the limit and the minute.
    pub fn check_rate_limit(&mut self, now_secs: u64) -> (r: Result<(), String>)
        ensures
            final(self)@ == rate_step(old(self)@, now_secs).0,
            Self::valid_window(final(self)@),
            r is Ok <==> rate_step(old(self)@, now_secs).1,
            r matches Err(msg) ==> msg@ == rate_limit_message((now_secs / 60) as nat),
    {
        proof {
            use_type_invariant(&*self);
        }
        let current_minute = now_secs / 60;
        if current_minute != self.minute {
            self.minute = current_minute;
            self.count = 1;
            return Ok(());
        }
        if self.count + 1 > MAX_PUBLISHES_PER_MINUTE {
            return Err(rate_limit_error(current_minute));
        }
        self.count = self.count + 1;
        Ok(())
    }
}

impl Default for MqttPublishTool {
    fn default() -> (t: Self)
        ensures
            t@ == (RateWindow { minute: 0, count: 0 }),
    {
        Self::new()
    }
}

fn rate_limit_error(minute: u64) -> (r: String)
    ensures
        r@ == rate_limit_message(minute as nat),
{
    let mut r = String::new();
    r.append("mqtt_publish rate limit exceeded: max ");
    push_decimal(&mut r, MAX_PUBLISHES_PER_MINUTE as u64);
    r.append(" publishes per minute (calendar minute ");
    push_decimal(&mut r, minute);
    r.append("); retry shortly");
    r
}

/// The window after calls at unix times `times` (in order) starting from
/// window `w`, and how many of those calls were allowed.
pub open spec fn rate_run(w: RateWindow, times: Seq<u64>) -> (RateWindow, nat)
    decreases times.len(),
{
    if times.len() == 0 {
        (w, 0)
    } else {
        let prev = rate_run(w, times.drop_last());
        let next = rate_step(prev.0, times.last());
        (next.0, prev.1 + if next.1 {
            1nat
        } else {
            0nat
        })
    }
}

/// Slots of calendar minute `m` already consumed in window `w`.
pub open spec fn used_in_minute(w: RateWindow, m: nat) -> nat {
    if w.minute == m {
        w.count as nat
    } else {
        0
    }
}

/// Law: calls made within one calendar minute `m` are allowed exactly until
/// the minute's [`MAX_PUBLISHES_PER_MINUTE`] slots are used up; afterwards
/// the window is at minute `m` and counts what was used.
pub proof fn lemma_limit_per_minute(w: RateWindow, times: Seq<u64>, m: nat)
    requires
        MqttPublishTool::valid_window(w),
        forall|i: int| 0 <= i < times.len() ==> (#[trigger] times[i]) / 60 == m,
    ensures
        rate_run(w, times).1 == vstd::math::min(
            times.len() as int,
            MAX_PUBLISHES_PER_MINUTE - used_in_minute(w, m),
        ),
        times.len() > 0 ==> rate_run(w, times).0.minute == m,
        times.len() > 0 ==> rate_run(w, times).0.count == used_in_minute(w, m) + rate_run(
            w,
            times,
        ).1,
        MqttPublishTool::valid_window(rate_run(w, times).0),
    decreases times.len(),
{
    if times.len() > 0 {
        let init = times.drop_last();
        assert forall|i: int| 0 <= i < init.len() implies (#[trigger] init[i]) / 60 == m by {
            assert(init[i] == times[i]);
        }
        lemma_limit_per_minute(w, init, m);
        assert(times.last() == times[times.len() - 1]);
    }
}

/// How many of the calls at unix times `times` (in order, from window `w`)
/// fall in calendar minute `m` and were allowed.
pub open spec fn allowed_in_minute(w: RateWindow, times: Seq<u64>, m: nat) -> nat
    decreases times.len(),
{
    if times.len() == 0 {
        0
    } else {
        let prev = rate_run(w, times.drop_last());
        allowed_in_minute(w, times.drop_last(), m) + if times.last() / 60 == m && rate_step(
            prev.0,
            times.last(),
        ).1 {
            1nat
        } else {
            0nat
        }
    }
}

/// `times` never goes back.
pub open spec fn non_decreasing(times: Seq<u64>) -> bool {
    forall|i: int, j: int| 0 <= i <= j < times.len() ==> times[i] <= times[j]
}

proof fn lemma_minute_monotone(a: u64, b: u64)
    requires
        a <= b,
    ensures
        a / 60 <= b / 60,
{
    vstd::arithmetic::div_mod::lemma_div_is_ordered(a as int, b as int, 60);
}

proof fn lemma_run_across_minutes(w: RateWindow, times: Seq<u64>)
    requires
        MqttPublishTool::valid_window(w),
        non_decreasing(times),
    ensures
        MqttPublishTool::valid_window(rate_run(w, times).0),
        times.len() > 0 ==> rate_run(w, times).0.minute == times.last() / 60,
        forall|m: nat|
            #![trigger allowed_in_minute(w, times, m)]
            {
                &&& (m == rate_run(w, times).0.minute ==> allowed_in_minute(w, times, m)
                    <= rate_run(w, times).0.count)
                &&& allowed_in_minute(w, times, m) <= MAX_PUBLISHES_PER_MINUTE
                &&& (allowed_in_minute(w, times, m) > 0 ==> times.len() > 0 && m <= times.last()
                    / 60)
            },
    decreases times.len(),
{
    if times.len() > 0 {
        let init = times.drop_last();
        assert forall|i: int, j: int| 0 <= i <= j < init.len() implies init[i] <= init[j] by {
            assert(init[i] == times[i] && init[j] == times[j]);
        }
        lemma_run_across_minutes(w, init);
        let prev = rate_run(w, init).0;
        let t = times.last();
        let mt = t / 60;
        if init.len() > 0 {
            assert(init.last() == times[init.len() - 1]);
            assert(times[init.len() - 1] <= times[times.len() - 1]);
            lemma_minute_monotone(init.last(), t);
        }
        assert forall|m: nat|
            #![trigger allowed_in_minute(w, times, m)]
            {
                &&& (m == rate_run(w, times).0.minute ==> allowed_in_minute(w, times, m)
                    <= rate_run(w, times).0.count)
                &&& allowed_in_minute(w, times, m) <= MAX_PUBLISHES_PER_MINUTE
                &&& (allowed_in_minute(w, times, m) > 0 ==> times.len() > 0 && m <= times.last()
                    / 60)
            } by {
            assert(allowed_in_minute(w, init, m) <= MAX_PUBLISHES_PER_MINUTE);
            if mt != prev.minute && m == mt {
                if allowed_in_minute(w, init, m) > 0 {
                    assert(m <= init.last() / 60);
                }
            }
        }
    }
}

/// Law: for calls whose times never go back, starting from any valid
/// window (a new tool's included), at most [`MAX_PUBLISHES_PER_MINUTE`]
/// calls are allowed in each calendar minute, and the window never counts
/// more than that.
pub proof fn lemma_limit_across_minutes(w: RateWindow, times: Seq<u64>, m: nat)
    requires
        MqttPublishTool::valid_window(w),
        non_decreasing(times),
    ensures
        allowed_in_minute(w, times, m) <= MAX_PUBLISHES_PER_MINUTE,
        MqttPublishTool::valid_window(rate_run(w, times).0),
{
    lemma_run_across_minutes(w, times);
}

/// Law: a refused publish leaves the window unchanged, so it costs no slot.
pub proof fn lemma_refusal_keeps_window(w: RateWindow, now_secs: u64)
    requires
        !rate_step(w, now_secs).1,
    ensures
        rate_step(w, now_secs).0 == w,
{
}

/// Law: the first publish in a new calendar minute is always allowed and
/// starts a fresh window with one slot used.
pub proof fn lemma_new_minute_resets(w: RateWindow, now_secs: u64)
    requires
        now_secs / 60 != w.minute,
    ensures
        rate_step(w, now_secs).1,
        rate_step(w, now_secs).0 == (RateWindow { minute: (now_secs / 60) as u64, count: 1 }),
{
}

/// What a tool call reports back to the agent.
pub struct ToolResult {
    pub success: bool,
    pub output: String,
    pub error: Option<String>,
}

/// The arguments of an `mqtt_publish` call, as far as they are present and
/// of the right JSON type: `topic` and `payload` strings, `retain` boolean.
pub struct PublishArgs {
    pub topic: Option<String>,
    pub payload: Option<String>,
    pub retain: Option<bool>,
}

/// A publish that passed the argument checks and the rate limit.
pub struct PublishRequest {
    pub topic: String,
    pub payload: String,
    pub retain: bool,
}

/// What a tool call does after its checks.
pub enum PublishStep {
    /// Publish this message, then report [`publish_outcome`].
    Publish(PublishRequest),
    /// Report this result without publishing.
    Done(ToolResult),
}

/// Error for a missing or blank topic.
pub open spec fn missing_topic_message() -> Seq<char> {
    "Missing or empty 'topic' parameter"@
}

/// Error for a missing payload.
pub open spec fn missing_payload_message() -> Seq<char> {
    "Missing 'payload' parameter"@
}

/// `true` or `false`.
pub open spec fn bool_text(b: bool) -> Seq<char> {
    if b {
        "true"@
    } else {
        "false"@
    }
}

/// Output of a publish that was handed to the bus.
pub open spec fn published_message(topic: Seq<char>, retain: bool) -> Seq<char> {
    "published to "@ + topic + " (retain="@ + bool_text(retain) + ")"@
}

/// Output of a publish that was a no-op because MQTT is not configured: it
/// says that the message was not delivered.
pub open spec fn noop_message(topic: Seq<char>, retain: bool) -> Seq<char> {
    "MQTT is not configured: the message to "@ + topic + " (retain="@ + bool_text(retain)
        + ") was not delivered; this publish was a no-op"@
}

/// Error of a publish that failed, with the failure's description.
pub open spec fn publish_failed_message(err: Seq<char>) -> Seq<char> {
    "mqtt publish failed: "@ + err
}

/// The topic argument once trimmed, when present and not blank.
pub open spec fn checked_topic(args: PublishArgs) -> Option<Seq<char>> {
    match args.topic {
        Some(t) => if trim(t@).len() > 0 {
            Some(trim(t@))
        } else {
            None
        },
        None => None,
    }
}

fn bool_string(b: bool) -> (r: String)
    ensures
        r@ == bool_text(b),
{
    if b {
        String::from_str("true")
    } else {
        String::from_str("false")
    }
}

impl MqttPublishTool {
    /// The tool's name.
    pub fn name(&self) -> (r: &'static str)
        ensures
            r@ == "mqtt_publish"@,
    {
        "mqtt_publish"
    }

    /// The tool's description for the agent.
    pub fn description(&self) -> (r: &'static str)
        ensures
            r@ == "Publish an arbitrary message to the MQTT event bus. Use this to emit events that other agents/SOPs (stuck-watchdog, task-completion-listener, rollups) consume. When MQTT is not configured the publish is a graceful no-op and the result reports the inert state \u{2014} it is NOT a failure. A per-session rate limit (60 publishes/minute) prevents flooding the bus."@,
    {
        "Publish an arbitrary message to the MQTT event bus. Use this to emit events that other agents/SOPs (stuck-watchdog, task-completion-listener, rollups) consume. When MQTT is not configured the publish is a graceful no-op and the result reports the inert state \u{2014} it is NOT a failure. A per-session rate limit (60 publishes/minute) prevents flooding the bus."
    }

    /// The JSON schema of the tool's parameters, as JSON text: an object
    /// with string `topic` and `payload` (both required) and a boolean
    /// `retain` defaulting to false.
    pub fn parameters_schema(&self) -> (r: String)
        ensures
            r@ == "{\"type\":\"object\",\"properties\":{\"topic\":{\"type\":\"string\",\"description\":\"Full MQTT topic path, e.g. 'zeroclaw/projects/<p>/milestones/<m>/tasks/<id>/note'.\"},\"payload\":{\"type\":\"string\",\"description\":\"Message body (UTF-8 text).\"},\"retain\":{\"type\":\"boolean\",\"description\":\"Whether to publish as a retained message.\",\"default\":false}},\"required\":[\"topic\",\"payload\"]}"@,
    {
        String::from_str(
            "{\"type\":\"object\",\"properties\":{\"topic\":{\"type\":\"string\",\"description\":\"Full MQTT topic path, e.g. 'zeroclaw/projects/<p>/milestones/<m>/tasks/<id>/note'.\"},\"payload\":{\"type\":\"string\",\"description\":\"Message body (UTF-8 text).\"},\"retain\":{\"type\":\"boolean\",\"description\":\"Whether to publish as a retained message.\",\"default\":false}},\"required\":[\"topic\",\"payload\"]}",
        )
    }

    /// Checks a call's arguments and the rate limit. A missing or blank
    /// topic, then a missing payload, is an error and leaves the window
    /// alone; otherwise one rate-limit check is made at `now_secs`, and a
    /// refused call is reported as an unsuccessful result without
    /// publishing.
    pub fn prepare_publish(&mut self, args: &PublishArgs, now_secs: u64) -> (r: Result<
        PublishStep,
        String,
    >)
        ensures
            checked_topic(*args) is None ==> (r matches Err(e) && e@ == missing_topic_message()),
            checked_topic(*args) is Some && args.payload is None ==> (r matches Err(e) && e@
                == missing_payload_message()),
            r is Err ==> final(self)@ == old(self)@,
            checked_topic(*args) is Some && args.payload is Some ==> final(self)@ == rate_step(
                old(self)@,
                now_secs,
            ).0,
            checked_topic(*args) is Some && args.payload is Some && rate_step(old(self)@, now_secs).1
                ==> (r matches Ok(PublishStep::Publish(req)) && req.topic@ == checked_topic(
                *args,
            )->0 && req.payload@ == args.payload->0@ && req.retain == (args.retain == Some(true))),
            checked_topic(*args) is Some && args.payload is Some && !rate_step(old(self)@, now_secs).1
                ==> (r matches Ok(PublishStep::Done(res)) && !res.success && res.output@
                == Seq::<char>::empty() && (res.error matches Some(msg) && msg@
                == rate_limit_message((now_secs / 60) as nat))),
            Self::valid_window(final(self)@),
    {
        proof {
            use_type_invariant(&*self);
        }
        let topic = match &args.topic {
            Some(t) => {
                let tt = trim_str(t.as_str());
                if tt.unicode_len() == 0 {
                    return Err(String::from_str("Missing or empty 'topic' parameter"));
                }
                String::from_str(tt)
            },
            None => {
                return Err(String::from_str("Missing or empty 'topic' parameter"));
            },
        };
        let payload = match &args.payload {
            Some(p) => p.clone(),
            None => {
                return Err(String::from_str("Missing 'payload' parameter"));
            },
        };
        let retain = match args.retain {
            Some(b) => b,
            None => false,
        };
        match self.check_rate_limit(now_secs) {
            Ok(()) => Ok(PublishStep::Publish(PublishRequest { topic, payload, retain })),
            Err(message) => Ok(
                PublishStep::Done(
                    ToolResult { success: false, output: String::new(), error: Some(message) },
                ),
            ),
        }
    }
}

fn describe_publish(prefix: &str, topic: &str, retain: bool, suffix: &str) -> (r: String)
    ensures
        r@ == prefix@ + topic@ + " (retain="@ + bool_text(retain) + suffix@,
{
    let mut out = String::from_str(prefix);
    out.append(topic);
    out.append(" (retain=");
    let b = bool_string(retain);
    out.append(b.as_str());
    out.append(suffix);
    out
}

/// The result reported for a publish of `req` that ended with `outcome`:
/// `Ok(true)` when the message was handed to the bus, `Ok(false)` when MQTT
/// is not configured and the publish was a no-op, or the failure's
/// description. A no-op is not a failure, but its result says that nothing
/// was delivered.
pub fn publish_outcome(req: &PublishRequest, outcome: Result<bool, String>) -> (r: ToolResult)
    ensures
        outcome is Ok ==> r.success && r.error is None,
        outcome == Ok::<bool, String>(true) ==> r.output@ == published_message(
            req.topic@,
            req.retain,
        ),
        outcome == Ok::<bool, String>(false) ==> r.output@ == noop_message(req.topic@, req.retain),
        outcome matches Err(e) ==> (!r.success && r.output@ == Seq::<char>::empty() && (
        r.error matches Some(msg) && msg@ == publish_failed_message(e@))),
{
    match outcome {
        Ok(true) => {
            let out = describe_publish("published to ", req.topic.as_str(), req.retain, ")");
            ToolResult { success: true, output: out, error: None }
        },
        Ok(false) => {
            let out = describe_publish(
                "MQTT is not configured: the message to ",
                req.topic.as_str(),
                req.retain,
                ") was not delivered; this publish was a no-op",
            );
            ToolResult { success: true, output: out, error: None }
        },
        Err(e) => {
            let mut msg = String::from_str("mqtt publish failed: ");
            msg.append(e.as_str());
            ToolResult { success: false, output: String::new(), error: Some(msg) }
        },
    }
}

} // verus!
