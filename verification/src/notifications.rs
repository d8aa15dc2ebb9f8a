//! From reports to notifications: what a report is worth telling, and the
//! queue that holds reports until the next tick and keeps one report for
//! each text.

use crate::intel::{IntelMessage, IntelMessageView, ThreatAssetment, ThreatView};
use crate::text::{chars_of, find, position, string_of};
use crate::universe::{System, SystemView};
use vstd::prelude::*;

verus! {

/// What is to be told, and how.
#[derive(Debug, PartialEq, Eq)]
pub enum Notification {
    /// Nothing is to be told.
    Nothing,
    /// A text to be spoken.
    Sound(String),
    /// A text to be shown.
    Desktop(String),
}

/// The mathematical model of a [`Notification`].
pub enum NotificationView {
    Nothing,
    Sound(Seq<char>),
    Desktop(Seq<char>),
}

impl View for Notification {
    type V = NotificationView;

    open spec fn view(&self) -> NotificationView {
        match self {
            Notification::Nothing => NotificationView::Nothing,
            Notification::Sound(text) => NotificationView::Sound(text@),
            Notification::Desktop(text) => NotificationView::Desktop(text@),
        }
    }
}

/// The decimal digit for a number below ten.
pub open spec fn digit(d: nat) -> char {
    if d == 0 {
        '0'
    } else if d == 1 {
        '1'
    } else if d == 2 {
        '2'
    } else if d == 3 {
        '3'
    } else if d == 4 {
        '4'
    } else if d == 5 {
        '5'
    } else if d == 6 {
        '6'
    } else if d == 7 {
        '7'
    } else if d == 8 {
        '8'
    } else {
        '9'
    }
}

/// The decimal digits of a number.
pub open spec fn digits(n: nat) -> Seq<char>
    decreases n,
{
    if n < 10 {
        seq![digit(n)]
    } else {
        digits(n / 10).push(digit(n % 10))
    }
}

/// A text as it is spoken: each dash reads ` tac `.
pub open spec fn spoken(text: Seq<char>) -> Seq<char>
    decreases text.len(),
{
    if text.len() == 0 {
        text
    } else if text.last() == '-' {
        spoken(text.drop_last()) + " tac "@
    } else {
        spoken(text.drop_last()).push(text.last())
    }
}

/// The first `n` characters of a name, or all of a shorter one.
pub open spec fn head(name: Seq<char>, n: int) -> Seq<char> {
    if name.len() <= n {
        name
    } else {
        name.take(n)
    }
}

/// The short name of a system, as it is spoken: its first four characters
/// where the third is its first dash, else its first three.
pub open spec fn short_name(name: Seq<char>) -> Seq<char> {
    if find(name, seq!['-'], 0) == Some(2int) {
        spoken(head(name, 4))
    } else {
        spoken(head(name, 3))
    }
}

/// The name of a system that may be absent.
pub open spec fn name_of(system: Option<SystemView>) -> Seq<char> {
    match system {
        Some(s) => s.name,
        None => Seq::empty(),
    }
}

/// The text that tells of hostiles near a player: the number of jumps,
/// the player, and the whole name of the system they were reported in.
pub open spec fn alert_text(jumps: nat, player: Seq<char>, origin: Option<SystemView>) -> Seq<char> {
    "threat "@ + digits(jumps) + " jumps from "@ + player + " in "@ + name_of(origin)
}

/// What a report is worth telling: that a system is clear and hostiles
/// near a player are spoken, hostiles farther away are shown, the rest is
/// passed over.
pub open spec fn notification_of(report: IntelMessageView) -> NotificationView {
    match report.threat_assement {
        ThreatView::NoThreat(system) => NotificationView::Sound(short_name(system.name) + " is clear"@),
        ThreatView::ProximityAlertCritical(_) => NotificationView::Sound(
            report.player + " threat in local, dock immediately"@,
        ),
        ThreatView::ProximityAlertHigh(jumps) => NotificationView::Sound(
            alert_text(jumps, report.player, report.origin),
        ),
        ThreatView::ProximityAlertLow(jumps) => NotificationView::Desktop(
            alert_text(jumps, report.player, report.origin),
        ),
        _ => NotificationView::Nothing,
    }
}

fn digit_of(d: usize) -> (r: char)
    requires
        d < 10,
    ensures
        r == digit(d as nat),
{
    if d == 0 {
        '0'
    } else if d == 1 {
        '1'
    } else if d == 2 {
        '2'
    } else if d == 3 {
        '3'
    } else if d == 4 {
        '4'
    } else if d == 5 {
        '5'
    } else if d == 6 {
        '6'
    } else if d == 7 {
        '7'
    } else if d == 8 {
        '8'
    } else {
        '9'
    }
}

fn put(out: &mut Vec<char>, text: &str)
    ensures
        final(out)@ == old(out)@ + text@,
{
    let ghost before = out@;
    let chars = chars_of(text);
    let mut i: usize = 0;
    while i < chars.len()
        invariant
            i <= chars@.len(),
            out@ == before + chars@.take(i as int),
        decreases chars@.len() - i,
    {
        out.push(chars[i]);
        assert(out@ =~= before + chars@.take(i + 1));
        i += 1;
    }
    assert(chars@.take(chars@.len() as int) =~= chars@);
}

/// The decimal digits of a number.
pub fn decimal(n: usize) -> (r: String)
    ensures
        r@ == digits(n as nat),
{
    let mut reversed: Vec<char> = Vec::new();
    let mut rest = n;
    while rest >= 10
        invariant
            digits(n as nat) == digits(rest as nat) + reversed@.reverse(),
        decreases rest,
    {
        let ghost before = reversed@;
        reversed.push(digit_of(rest % 10));
        proof {
            assert(reversed@.reverse() =~= seq![digit((rest % 10) as nat)] + before.reverse());
            assert(digits(rest as nat) == digits((rest / 10) as nat).push(digit((rest % 10) as nat)));
            assert(digits((rest / 10) as nat).push(digit((rest % 10) as nat)) + before.reverse() =~= digits(
                (rest / 10) as nat,
            ) + (seq![digit((rest % 10) as nat)] + before.reverse()));
        }
        rest = rest / 10;
    }
    let mut out: Vec<char> = Vec::new();
    out.push(digit_of(rest));
    let mut i: usize = reversed.len();
    while i > 0
        invariant
            i <= reversed@.len(),
            rest < 10,
            out@ == seq![digit(rest as nat)] + reversed@.reverse().take(reversed@.len() - i),
        decreases i,
    {
        i -= 1;
        out.push(reversed[i]);
        assert(out@ =~= seq![digit(rest as nat)] + reversed@.reverse().take(reversed@.len() - i));
    }
    assert(reversed@.reverse().take(reversed@.len() as int) =~= reversed@.reverse());
    string_of(&out)
}

/// The short name of a system, as it is spoken.
pub fn human_system(system: &System) -> (r: String)
    ensures
        r@ == short_name(system@.name),
{
    let name = chars_of(system.name.as_str());
    let mut dash: Vec<char> = Vec::new();
    dash.push('-');
    assert(dash@ =~= seq!['-']);
    let wide = match position(&name, &dash, 0) {
        Some(at) => at == 2,
        None => false,
    };
    let want: usize = if wide {
        4
    } else {
        3
    };
    let n = if name.len() <= want {
        name.len()
    } else {
        want
    };
    let ghost short = head(name@, want as int);
    assert(short =~= name@.take(n as int));
    let mut out: Vec<char> = Vec::new();
    let mut i: usize = 0;
    while i < n
        invariant
            i <= n <= name@.len(),
            out@ == spoken(name@.take(i as int)),
        decreases n - i,
    {
        assert(name@.take(i + 1).drop_last() =~= name@.take(i as int));
        if name[i] == '-' {
            put(&mut out, " tac ");
        } else {
            out.push(name[i]);
        }
        i += 1;
    }
    string_of(&out)
}

fn alert(jumps: usize, player: &String, origin: &Option<System>) -> (r: String)
    ensures
        r@ == alert_text(jumps as nat, player@, crate::intel::system_view(*origin)),
{
    let mut out: Vec<char> = Vec::new();
    put(&mut out, "threat ");
    put(&mut out, decimal(jumps).as_str());
    put(&mut out, " jumps from ");
    put(&mut out, player.as_str());
    put(&mut out, " in ");
    match origin {
        Some(system) => {
            put(&mut out, system.name.as_str());
        },
        None => {},
    }
    let text = string_of(&out);
    assert(text@ =~= alert_text(jumps as nat, player@, crate::intel::system_view(*origin)));
    text
}

impl Notification {
    /// What a report is worth telling.
    pub fn from(message: &IntelMessage) -> (r: Notification)
        ensures
            r@ == notification_of(message@),
    {
        match &message.threat_assement {
            ThreatAssetment::NoThreat(system) => {
                let mut out: Vec<char> = Vec::new();
                put(&mut out, human_system(system).as_str());
                put(&mut out, " is clear");
                let text = string_of(&out);
                assert(text@ =~= short_name(system@.name) + " is clear"@);
                Notification::Sound(text)
            },
            ThreatAssetment::ProximityAlertCritical(_) => {
                let mut out: Vec<char> = Vec::new();
                put(&mut out, message.player.as_str());
                put(&mut out, " threat in local, dock immediately");
                let text = string_of(&out);
                assert(text@ =~= message@.player + " threat in local, dock immediately"@);
                Notification::Sound(text)
            },
            ThreatAssetment::ProximityAlertHigh(jumps) => Notification::Sound(
                alert(*jumps, &message.player, &message.origin),
            ),
            ThreatAssetment::ProximityAlertLow(jumps) => Notification::Desktop(
                alert(*jumps, &message.player, &message.origin),
            ),
            _ => Notification::Nothing,
        }
    }
}

/// A report in the queue. Two of them count as the same where their texts
/// are the same.
#[derive(Debug, PartialEq, Eq)]
pub struct DebouncedMessage(pub IntelMessage);

impl DebouncedMessage {
    /// The report as it stands in the queue.
    pub fn new(message: IntelMessage) -> (r: DebouncedMessage)
        ensures
            r.0 == message,
    {
        DebouncedMessage(message)
    }
}

/// What the queue is told.
#[derive(Debug, PartialEq, Eq)]
pub enum DebounceMessages {
    /// A report has come.
    Intel(IntelMessage),
    /// The time has come to hand the reports on.
    Tick,
}

/// A notification with the text of the line of chat it is about.
#[derive(Debug, PartialEq, Eq)]
pub struct Delivery {
    pub notification: Notification,
    pub message: String,
}

/// The mathematical model of a [`Delivery`].
pub struct DeliveryView {
    pub notification: NotificationView,
    pub message: Seq<char>,
}

impl View for Delivery {
    type V = DeliveryView;

    open spec fn view(&self) -> DeliveryView {
        DeliveryView { notification: self.notification@, message: self.message@ }
    }
}

/// The models of a sequence of deliveries.
pub open spec fn delivery_views(v: Seq<Delivery>) -> Seq<DeliveryView> {
    Seq::new(v.len(), |i: int| v[i]@)
}

/// What is handed on for a report.
pub open spec fn delivery_of(report: IntelMessageView) -> DeliveryView {
    DeliveryView { notification: notification_of(report), message: report.message }
}

/// What is handed on for the reports, one for each, in their order.
pub open spec fn deliveries_of(pending: Seq<IntelMessageView>) -> Seq<DeliveryView> {
    Seq::new(pending.len(), |i: int| delivery_of(pending[i]))
}

/// The first number of jumps is the larger one. A report with a route is
/// farther than one without.
pub open spec fn farther(a: Option<nat>, b: Option<nat>) -> bool {
    match (a, b) {
        (Some(x), Some(y)) => x > y,
        (Some(_), None) => true,
        _ => false,
    }
}

/// The position at or after `from` of the report with the text `text`.
pub open spec fn place(pending: Seq<IntelMessageView>, text: Seq<char>, from: int) -> Option<int>
    decreases pending.len() - from,
{
    if from < 0 || from >= pending.len() {
        None
    } else if pending[from].message == text {
        Some(from)
    } else {
        place(pending, text, from + 1)
    }
}

/// No two reports have the same text.
pub open spec fn distinct_texts(pending: Seq<IntelMessageView>) -> bool {
    forall|i: int, j: int| 0 <= i < j < pending.len() ==> (#[trigger] pending[i]).message != (#[trigger] pending[j]).message
}

/// The queue after a report has come: it takes the place of the report
/// with the same text unless that one is farther; where there is none, it
/// goes to the end.
pub open spec fn merged(pending: Seq<IntelMessageView>, new: IntelMessageView) -> Seq<IntelMessageView> {
    match place(pending, new.message, 0) {
        Some(at) => if farther(pending[at].jumps(), new.jumps()) {
            pending
        } else {
            pending.update(at, new)
        },
        None => pending.push(new),
    }
}

/// Where a text is found, it stands there, and nowhere before.
pub proof fn lemma_place(pending: Seq<IntelMessageView>, text: Seq<char>, from: int)
    requires
        0 <= from,
    ensures
        match place(pending, text, from) {
            Some(at) => from <= at < pending.len() && pending[at].message == text && forall|k: int|
                from <= k < at ==> (#[trigger] pending[k]).message != text,
            None => forall|k: int| from <= k < pending.len() ==> (#[trigger] pending[k]).message != text,
        },
    decreases pending.len() - from,
{
    if from < pending.len() && pending[from].message != text {
        lemma_place(pending, text, from + 1);
    }
}

/// The queue keeps one report for each text.
pub proof fn lemma_merged_distinct(pending: Seq<IntelMessageView>, new: IntelMessageView)
    requires
        distinct_texts(pending),
    ensures
        distinct_texts(merged(pending, new)),
{
    lemma_place(pending, new.message, 0);
    let after = merged(pending, new);
    assert forall|i: int, j: int| 0 <= i < j < after.len() implies (#[trigger] after[i]).message != (
    #[trigger] after[j]).message by {
        match place(pending, new.message, 0) {
            Some(at) => {
                assert(pending[i].message != pending[j].message);
            },
            None => {
                if j < pending.len() {
                    assert(pending[i].message != pending[j].message);
                } else {
                    assert(pending[i].message != new.message);
                }
            },
        }
    }
}

/// Of two reports with the same text that come one after the other, the
/// queue keeps one: the first where it is farther, else the second.
pub proof fn lemma_debounce(pending: Seq<IntelMessageView>, first: IntelMessageView, second: IntelMessageView)
    requires
        place(pending, first.message, 0) is None,
        first.message == second.message,
    ensures
        merged(merged(pending, first), second) == pending.push(
            if farther(first.jumps(), second.jumps()) {
                first
            } else {
                second
            },
        ),
{
    let once = pending.push(first);
    lemma_place(pending, first.message, 0);
    lemma_place(once, second.message, 0);
    let at = pending.len() as int;
    assert(once[at].message == second.message);
    match place(once, second.message, 0) {
        Some(k) => {
            if k < at {
                assert(once[k] == pending[k]);
            }
        },
        None => {},
    }
    assert(once.update(at, second) =~= pending.push(second));
}

/// After a report has come, the report that waits for its text is at least
/// as far as it and as the one that waited for that text before.
pub proof fn lemma_farthest_waits(pending: Seq<IntelMessageView>, new: IntelMessageView)
    ensures
        place(merged(pending, new), new.message, 0) is Some,
        !farther(new.jumps(), merged(pending, new)[place(merged(pending, new), new.message, 0)->0].jumps()),
        place(pending, new.message, 0) matches Some(k) ==> !farther(
            pending[k].jumps(),
            merged(pending, new)[place(merged(pending, new), new.message, 0)->0].jumps(),
        ),
{
    let after = merged(pending, new);
    lemma_place(pending, new.message, 0);
    lemma_place(after, new.message, 0);
    match place(pending, new.message, 0) {
        Some(k) => {
            assert(after[k].message == new.message);
            match place(after, new.message, 0) {
                Some(at) => {
                    if at < k {
                        assert(after[at] == pending[at]);
                    }
                },
                None => {},
            }
        },
        None => {
            let k = pending.len() as int;
            assert(after[k].message == new.message);
            match place(after, new.message, 0) {
                Some(at) => {
                    if at < k {
                        assert(after[at] == pending[at]);
                    }
                },
                None => {},
            }
        },
    }
}

/// A report that has come waits in the queue, or one with the same text
/// does in its place: the next tick tells of its text.
pub proof fn lemma_never_dropped(pending: Seq<IntelMessageView>, new: IntelMessageView)
    ensures
        exists|i: int|
            0 <= i < merged(pending, new).len() && (#[trigger] deliveries_of(merged(pending, new))[i]).message
                == new.message,
{
    lemma_place(pending, new.message, 0);
    let after = merged(pending, new);
    let at = match place(pending, new.message, 0) {
        Some(at) => at,
        None => pending.len() as int,
    };
    assert(after[at].message == new.message);
    assert(deliveries_of(after)[at].message == new.message);
}

/// The queue of the reports that wait for the next tick.
pub struct Notifications {
    queue: Vec<DebouncedMessage>,
}

impl View for Notifications {
    type V = Seq<IntelMessageView>;

    closed spec fn view(&self) -> Seq<IntelMessageView> {
        Seq::new(self.queue@.len(), |i: int| self.queue@[i].0@)
    }
}

impl Notifications {
    #[verifier::type_invariant]
    spec fn inv(self) -> bool {
        distinct_texts(self@)
    }

    /// The empty queue.
    pub fn new() -> (r: Notifications)
        ensures
            r@ == Seq::<IntelMessageView>::empty(),
    {
        let queue: Vec<DebouncedMessage> = Vec::new();
        assert(Seq::new(queue@.len(), |i: int| queue@[i].0@) =~= Seq::<IntelMessageView>::empty());
        Notifications { queue }
    }

    /// The number of reports that wait. No two of them have the same text.
    pub fn pending(&self) -> (r: usize)
        ensures
            r == self@.len(),
            distinct_texts(self@),
    {
        proof {
            use_type_invariant(self);
        }
        self.queue.len()
    }

    /// Takes a report into the queue: it takes the place of the report
    /// with the same text unless that one is farther. No two reports that
    /// wait have the same text.
    pub fn deliver(&mut self, message: IntelMessage)
        ensures
            final(self)@ == merged(old(self)@, message@),
            distinct_texts(old(self)@),
            distinct_texts(final(self)@),
    {
        let ghost before = self@;
        let ghost text = message@.message;
        proof {
            use_type_invariant(&*self);
            lemma_merged_distinct(before, message@);
        }
        let mut taken = Notifications::new();
        core::mem::swap(self, &mut taken);
        let mut queue = taken.queue;
        let ghost views = Seq::new(queue@.len(), |i: int| queue@[i].0@);
        assert(views == before);
        let mut found: Option<usize> = None;
        let mut i: usize = 0;
        while i < queue.len()
            invariant_except_break
                found is None,
            invariant
                i <= queue@.len(),
                before == Seq::new(queue@.len(), |k: int| queue@[k].0@),
                text == message@.message,
                place(before, text, 0) == place(before, text, i as int),
            ensures
                match found {
                    Some(at) => at < queue@.len() && place(before, text, 0) == Some(at as int),
                    None => place(before, text, 0) is None,
                },
            decreases queue@.len() - i,
        {
            assert(before[i as int] == queue@[i as int].0@);
            if queue[i].0.message == message.message {
                found = Some(i);
                break ;
            }
            i += 1;
        }
        match found {
            Some(at) => {
                let keep = match (&queue[at].0.route, &message.route) {
                    (Some(old), Some(new)) => old.distance > new.distance,
                    (Some(_), None) => true,
                    _ => false,
                };
                proof {
                    assert(before[at as int] == queue@[at as int].0@);
                    assert(before[at as int].route == crate::intel::route_view(queue@[at as int].0.route));
                    assert(message@.route == crate::intel::route_view(message.route));
                    assert(keep == farther(before[at as int].jumps(), message@.jumps()));
                }
                if !keep {
                    let ghost view = message@;
                    queue.set(at, DebouncedMessage::new(message));
                    assert(Seq::new(queue@.len(), |k: int| queue@[k].0@) =~= before.update(at as int, view));
                }
            },
            None => {
                let ghost view = message@;
                queue.push(DebouncedMessage::new(message));
                assert(Seq::new(queue@.len(), |k: int| queue@[k].0@) =~= before.push(view));
            },
        }
        *self = Notifications { queue };
    }

    /// Empties the queue and hands on what is to be told of each report
    /// that waited, in the order in which their texts first came.
    pub fn tick(&mut self) -> (r: Vec<Delivery>)
        ensures
            r@.len() == old(self)@.len(),
            delivery_views(r@) == deliveries_of(old(self)@),
            distinct_texts(old(self)@),
            final(self)@ == Seq::<IntelMessageView>::empty(),
    {
        let ghost before = self@;
        proof {
            use_type_invariant(&*self);
        }
        let mut out: Vec<Delivery> = Vec::new();
        let mut i: usize = 0;
        while i < self.queue.len()
            invariant
                i <= self.queue@.len(),
                self@ == before,
                out@.len() == i,
                forall|k: int| 0 <= k < i ==> (#[trigger] out@[k])@ == delivery_of(before[k]),
            decreases self.queue@.len() - i,
        {
            assert(before[i as int] == self.queue@[i as int].0@);
            let report = &self.queue[i].0;
            out.push(Delivery { notification: Notification::from(report), message: report.message.clone() });
            i += 1;
        }
        self.queue = Vec::new();
        assert(self@ =~= Seq::<IntelMessageView>::empty());
        assert(delivery_views(out@) =~= deliveries_of(before));
        out
    }

    /// What the queue does when it is told something: it takes a report
    /// in and hands nothing on, or at a tick hands on all that waited.
    pub fn handle(&mut self, event: DebounceMessages) -> (r: Vec<Delivery>)
        ensures
            distinct_texts(old(self)@),
            distinct_texts(final(self)@),
            match event {
                DebounceMessages::Intel(message) => final(self)@ == merged(old(self)@, message@) && r@.len() == 0,
                DebounceMessages::Tick => delivery_views(r@) == deliveries_of(old(self)@) && final(self)@
                    == Seq::<IntelMessageView>::empty(),
            },
    {
        match event {
            DebounceMessages::Intel(message) => {
                self.deliver(message);
                Vec::new()
            },
            DebounceMessages::Tick => self.tick(),
        }
    }
}

} // verus!
