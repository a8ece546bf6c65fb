//! NIC RX/TX queue IRQ ↔ io-thread CPU affinity sync.
//!
//! Direction is chosen per NIC queue by whether its IRQ affinity is
//! kernel-managed (writes to `smp_affinity` rejected):
//!
//! - **unmanaged** → write the io-thread's assigned CPU to the NIC queue IRQ's
//!   `smp_affinity` (NIC follows ioutgt).
//! - **managed** → pull the NIC IRQ's effective affinity into the io-thread
//!   CPU assignment (ioutgt follows NIC).
//!
//! Queue index `i` maps to io-thread index `i`.

use std::collections::BTreeMap;

use vstd::prelude::*;
use vstd::slice::slice_subrange;

use crate::text;
use crate::text::{
    chars_of, find, find_text, owned, parse_number, parse_usize, say, say_number, split,
    split_once, split_whitespace, starts_with, string_of, trim,
};

verus! {

broadcast use vstd::std_specs::btree::group_btree_axioms;

/// rx/tx IRQ number for each NIC queue index (combined channels put the same
/// IRQ in both maps).
#[derive(Debug, PartialEq, Eq)]
pub struct NicIrqs {
    /// queue index → rx IRQ number.
    pub rx: BTreeMap<usize, u32>,
    /// queue index → tx IRQ number.
    pub tx: BTreeMap<usize, u32>,
}

/// A NIC's IRQs, as maps.
pub struct Irqs {
    /// queue index → rx IRQ number.
    pub rx: Map<usize, u32>,
    /// queue index → tx IRQ number.
    pub tx: Map<usize, u32>,
}

impl View for NicIrqs {
    type V = Irqs;

    open spec fn view(&self) -> Irqs {
        Irqs { rx: self.rx@, tx: self.tx@ }
    }
}

impl Default for NicIrqs {
    /// No queue at all.
    fn default() -> (r: Self)
        ensures
            r@ == (Irqs { rx: Map::empty(), tx: Map::empty() }),
    {
        NicIrqs { rx: BTreeMap::new(), tx: BTreeMap::new() }
    }
}

/// What a queue's IRQ serves.
#[derive(Debug, Clone, Copy, PartialEq, Eq, Structural)]
pub enum Role {
    /// Both ways.
    TxRx,
    /// Receiving.
    Rx,
    /// Sending.
    Tx,
}

/// The queue index `s` is, given its role.
pub open spec fn indexed(role: Role, s: Seq<char>) -> Option<(Role, usize)> {
    match text::number_of(s, usize::MAX as nat) {
        Some(n) => Some((role, n as usize)),
        None => None,
    }
}

/// What `<nic>-TxRx-3`, `<nic>-rx-3` and `<nic>-tx-3` say — behind whatever a
/// driver puts before the NIC's name.
pub open spec fn label(tok: Seq<char>, nic: Seq<char>) -> Option<(Role, usize)> {
    match text::first_from(tok, nic, 0) {
        None => None,
        Some(pos) => {
            let after = tok.skip(pos + nic.len());
            if after.len() == 0 || after[0] != '-' {
                None
            } else {
                let rest = after.drop_first();
                if text::has_prefix(rest, "TxRx-"@) {
                    indexed(Role::TxRx, rest.skip("TxRx-"@.len() as int))
                } else if text::has_prefix(rest, "rx-"@) {
                    indexed(Role::Rx, rest.skip("rx-"@.len() as int))
                } else if text::has_prefix(rest, "tx-"@) {
                    indexed(Role::Tx, rest.skip("tx-"@.len() as int))
                } else {
                    None
                }
            }
        },
    }
}

fn index_of(role: Role, s: &[char]) -> (r: Option<(Role, usize)>)
    ensures
        r == indexed(role, s@),
{
    match parse_usize(s) {
        Some(n) => Some((role, n)),
        None => None,
    }
}

/// Match an IRQ action token (a driver prefix such as `bnxt_en-<nic>-TxRx-3`
/// still matches, since the NIC's name is searched for). Returns the role and
/// queue index.
pub fn match_label(tok: &[char], nic: &[char]) -> (r: Option<(Role, usize)>)
    ensures
        r == label(tok@, nic@),
{
    let found = find_text(tok, nic);
    proof {
        let at = match found {
            Some(i) => Some(i as int),
            None => None,
        };
        text::lemma_first_from(tok@, nic@, 0, at);
    }
    let pos: usize = match found {
        Some(i) => i,
        None => {
            return None;
        },
    };
    let whole: usize = tok.len();
    let name: usize = nic.len();
    assert(pos + name <= whole);
    let after = slice_subrange(tok, pos + name, whole);
    assert(after@ =~= tok@.skip(pos + nic@.len()));
    if after.len() == 0 || after[0] != '-' {
        return None;
    }
    let rest = slice_subrange(after, 1, after.len());
    assert(rest@ =~= after@.drop_first());
    let both = chars_of("TxRx-");
    let rx = chars_of("rx-");
    let tx = chars_of("tx-");
    if starts_with(rest, both.as_slice()) {
        let num = slice_subrange(rest, both.len(), rest.len());
        assert(num@ =~= rest@.skip("TxRx-"@.len() as int));
        index_of(Role::TxRx, num)
    } else if starts_with(rest, rx.as_slice()) {
        let num = slice_subrange(rest, rx.len(), rest.len());
        assert(num@ =~= rest@.skip("rx-"@.len() as int));
        index_of(Role::Rx, num)
    } else if starts_with(rest, tx.as_slice()) {
        let num = slice_subrange(rest, tx.len(), rest.len());
        assert(num@ =~= rest@.skip("tx-"@.len() as int));
        index_of(Role::Tx, num)
    } else {
        None
    }
}

/// `m` once `irq` is known to serve what `l` says.
pub open spec fn noted(m: Irqs, irq: u32, l: Option<(Role, usize)>) -> Irqs {
    match l {
        Some((Role::TxRx, i)) => Irqs { rx: m.rx.insert(i, irq), tx: m.tx.insert(i, irq) },
        Some((Role::Rx, i)) => Irqs { rx: m.rx.insert(i, irq), ..m },
        Some((Role::Tx, i)) => Irqs { tx: m.tx.insert(i, irq), ..m },
        None => m,
    }
}

/// `m` once the first `k` tokens of IRQ `irq` have been read.
pub open spec fn tokens_read(
    m: Irqs,
    irq: u32,
    toks: Seq<Seq<char>>,
    nic: Seq<char>,
    k: nat,
) -> Irqs
    decreases k,
{
    if k == 0 {
        m
    } else {
        noted(tokens_read(m, irq, toks, nic, (k - 1) as nat), irq, label(toks[k - 1], nic))
    }
}

/// `m` once `line` has been read: an IRQ number, a colon, and tokens.
pub open spec fn line_read(m: Irqs, line: Seq<char>, nic: Seq<char>) -> Irqs {
    match text::cut(line, ':') {
        None => m,
        Some((head, rest)) => match text::number_of(text::trimmed(head), u32::MAX as nat) {
            None => m,
            Some(irq) => tokens_read(
                m,
                irq as u32,
                text::words(rest),
                nic,
                text::words(rest).len(),
            ),
        },
    }
}

/// What the first `k` lines say.
pub open spec fn lines_read(lines: Seq<Seq<char>>, nic: Seq<char>, k: nat) -> Irqs
    decreases k,
{
    if k == 0 {
        Irqs { rx: Map::empty(), tx: Map::empty() }
    } else {
        line_read(lines_read(lines, nic, (k - 1) as nat), lines[k - 1], nic)
    }
}

/// What a `/proc/interrupts` text says of a NIC.
pub open spec fn interrupts(t: Seq<char>, nic: Seq<char>) -> Irqs {
    let lines = text::split_at_each(t, '\n');
    lines_read(lines, nic, lines.len())
}

fn note(m: &mut NicIrqs, irq: u32, l: Option<(Role, usize)>)
    ensures
        final(m)@ == noted(old(m)@, irq, l),
{
    match l {
        Some((Role::TxRx, i)) => {
            m.rx.insert(i, irq);
            m.tx.insert(i, irq);
        },
        Some((Role::Rx, i)) => {
            m.rx.insert(i, irq);
        },
        Some((Role::Tx, i)) => {
            m.tx.insert(i, irq);
        },
        None => {},
    }
}

fn read_line(m: &mut NicIrqs, line: &[char], nic: &[char])
    ensures
        final(m)@ == line_read(old(m)@, line@, nic@),
{
    let (head, rest) = match split_once(line, ':') {
        Some(p) => p,
        None => {
            return ;
        },
    };
    let irq: u32 = match parse_number(trim(head), 0xffff_ffff) {
        Some(n) => n as u32,
        None => {
            return ;
        },
    };
    let toks = split_whitespace(rest);
    let ghost want = text::words(rest@);
    assert(toks@.map_values(|p: Vec<char>| p@) == want);
    let n: usize = toks.len();
    for k in 0..n
        invariant
            n == toks@.len() == want.len(),
            toks@.map_values(|p: Vec<char>| p@) == want,
            m@ == tokens_read(old(m)@, irq, want, nic@, k as nat),
    {
        assert(toks@.map_values(|p: Vec<char>| p@)[k as int] == toks@[k as int]@);
        note(m, irq, match_label(toks[k].as_slice(), nic));
    }
}

/// Parse `/proc/interrupts` text into per-queue rx/tx IRQ numbers for `nic`.
pub fn parse_interrupts(text: &str, nic: &str) -> (r: NicIrqs)
    ensures
        r@ == interrupts(text@, nic@),
{
    let all = chars_of(text);
    let name = chars_of(nic);
    let lines = split(all.as_slice(), '\n');
    let ghost want = text::split_at_each(text@, '\n');
    let mut m = NicIrqs::default();
    let n: usize = lines.len();
    for k in 0..n
        invariant
            n == lines@.len() == want.len(),
            name@ == nic@,
            lines@.map_values(|p: Vec<char>| p@) == want,
            m@ == lines_read(want, nic@, k as nat),
    {
        assert(lines@.map_values(|p: Vec<char>| p@)[k as int] == lines@[k as int]@);
        read_line(&mut m, lines[k].as_slice(), name.as_slice());
    }
    m
}

/// Whether every index of `m` is below `n`.
pub open spec fn below(m: Map<usize, u32>, n: nat) -> bool {
    forall|k: usize| #[trigger] m.dom().contains(k) ==> k < n
}

fn reach(m: &BTreeMap<usize, u32>) -> (r: usize)
    requires
        !m@.dom().contains(usize::MAX),
    ensures
        below(m@, r as nat),
        r > 0 ==> m@.dom().contains((r - 1) as usize),
{
    let mut r: usize = 0;
    for k in it: m.keys()
        invariant
            !m@.dom().contains(usize::MAX),
            it.seq().unref().to_set() == m@.dom(),
            forall|j: int| 0 <= j < it.index() ==> *(#[trigger] it.seq()[j]) < r,
            r > 0 ==> m@.dom().contains((r - 1) as usize),
    {
        assert(it.seq().unref().contains(*k)) by {
            assert(it.seq().unref()[it.index() as int] == *k);
        }
        assert(m@.dom().contains(*k));
        if *k >= r {
            r = *k + 1;
        }
    }
    r
}

impl NicIrqs {
    /// Highest queue index seen + 1 (0 when empty).
    pub fn nr_queues(&self) -> (r: usize)
        requires
            !self@.rx.dom().contains(usize::MAX),
            !self@.tx.dom().contains(usize::MAX),
        ensures
            below(self@.rx, r as nat),
            below(self@.tx, r as nat),
            r > 0 ==> self@.rx.dom().contains((r - 1) as usize) || self@.tx.dom().contains(
                (r - 1) as usize,
            ),
    {
        let a: usize = reach(&self.rx);
        let b: usize = reach(&self.tx);
        if a > b {
            a
        } else {
            b
        }
    }
}

/// The IRQ of queue `idx`.
pub open spec fn irq_at(m: Map<usize, u32>, idx: usize) -> Option<u32> {
    if m.dom().contains(idx) {
        Some(m[idx])
    } else {
        None
    }
}

fn irq_of(m: &BTreeMap<usize, u32>, idx: usize) -> (r: Option<u32>)
    ensures
        r == irq_at(m@, idx),
{
    match m.get(&idx) {
        Some(n) => Some(*n),
        None => None,
    }
}

/// Distinct IRQs serving queue `idx`: rx then tx, one where they are the same.
pub open spec fn distinct(m: Irqs, idx: usize) -> Seq<u32> {
    match (irq_at(m.rx, idx), irq_at(m.tx, idx)) {
        (Some(r), Some(t)) => if r == t {
            seq![r]
        } else {
            seq![r, t]
        },
        (Some(r), None) => seq![r],
        (None, Some(t)) => seq![t],
        (None, None) => seq![],
    }
}

/// Distinct IRQs serving queue `idx` (rx then tx; deduped for combined).
pub fn distinct_irqs(irqs: &NicIrqs, idx: usize) -> (r: Vec<u32>)
    ensures
        r@ == distinct(irqs@, idx),
{
    let mut v: Vec<u32> = Vec::new();
    let rx = irq_of(&irqs.rx, idx);
    let tx = irq_of(&irqs.tx, idx);
    match rx {
        Some(r) => v.push(r),
        None => {},
    }
    match tx {
        Some(t) => {
            let known = match rx {
                Some(r) => r == t,
                None => false,
            };
            if !known {
                v.push(t);
            }
        },
        None => {},
    }
    assert(v@ =~= distinct(irqs@, idx));
    v
}

/// The first CPU id of a kernel cpulist (`"12"`, `"12,44"`, `"0-3"`).
pub open spec fn leading_cpu(list: Seq<char>) -> Option<nat> {
    let a = text::before(list, ',');
    let b = text::before(list, '-');
    text::number_of(
        text::trimmed(
            list.take(
                if a < b {
                    a
                } else {
                    b
                },
            ),
        ),
        usize::MAX as nat,
    )
}

/// First CPU id in a kernel cpulist.
pub fn first_cpu(list: &str) -> (r: Option<usize>)
    ensures
        match r {
            Some(n) => leading_cpu(list@) == Some(n as nat),
            None => leading_cpu(list@) is None,
        },
{
    let all = chars_of(list);
    let n: usize = all.len();
    let a: usize = match find(all.as_slice(), ',') {
        Some(i) => i,
        None => n,
    };
    let b: usize = match find(all.as_slice(), '-') {
        Some(i) => i,
        None => n,
    };
    let end: usize = if a < b {
        a
    } else {
        b
    };
    let head = slice_subrange(all.as_slice(), 0, end);
    assert(head@ =~= list@.take(end as int));
    parse_usize(trim(head))
}

/// What a file of effective affinity says.
pub fn effective(text: &str) -> (r: String)
    ensures
        r@ == text::trimmed(text@),
{
    let all = chars_of(text);
    string_of(trim(all.as_slice()))
}

// ---------------------------------------------------------------------------
// Sync
// ---------------------------------------------------------------------------

/// What a NIC without recognizable IRQs is answered.
pub open spec fn no_irqs(nic: Seq<char>) -> Seq<char> {
    "no rx/tx IRQs for nic '"@ + nic
        + "' in /proc/interrupts (is the nic in this netns? unexpected action label?)"@
}

/// The IRQs of NIC `nic` in a `/proc/interrupts` text, or an error where it
/// has none that are recognized.
pub fn nic_irqs(text: &str, nic: &str) -> (r: Result<NicIrqs, String>)
    ensures
        ({
            let m = interrupts(text@, nic@);
            match r {
                Ok(i) => i@ == m && (m.rx.dom().len() > 0 || m.tx.dom().len() > 0),
                Err(e) => e@ == no_irqs(nic@) && m.rx.dom().len() == 0 && m.tx.dom().len() == 0,
            }
        }),
{
    let m = parse_interrupts(text, nic);
    if m.rx.is_empty() && m.tx.is_empty() {
        let mut s = owned("no rx/tx IRQs for nic '");
        say(&mut s, nic);
        say(
            &mut s,
            "' in /proc/interrupts (is the nic in this netns? unexpected action label?)",
        );
        return Err(s);
    }
    Ok(m)
}

/// Where the sync of one queue stands.
#[derive(Debug)]
pub enum Stage {
    /// The io-thread's CPU is being written to the queue's IRQs, this one next.
    Writing {
        /// The io-thread's CPU.
        cpu: usize,
        /// Which IRQ.
        at: usize,
    },
    /// The NIC's effective CPU is being read: a write was refused.
    Managed {
        /// The io-thread's CPU.
        cpu: usize,
        /// Why.
        why: String,
    },
    /// The NIC's effective CPU is being read: the io-thread has none.
    Unpinned,
    /// It is over.
    Over,
}

/// The sync of one queue.
#[derive(Debug)]
pub struct QueueSync {
    /// Queue index.
    pub idx: usize,
    /// Its rx IRQ.
    pub rx_irq: Option<u32>,
    /// Its tx IRQ.
    pub tx_irq: Option<u32>,
    /// Both, once each.
    pub irqs: Vec<u32>,
    /// Where it stands.
    pub stage: Stage,
}

/// What the sync of a queue needs next.
#[derive(Debug)]
pub enum Step {
    /// `cpu` written to the affinity of `irq`.
    Write {
        /// The IRQ.
        irq: u32,
        /// The CPU.
        cpu: usize,
    },
    /// The effective affinity of `irq`.
    Read {
        /// The IRQ.
        irq: u32,
    },
    /// Nothing.
    Done(Report),
}

/// What became of a queue.
#[derive(Debug)]
pub struct Report {
    /// Whether the kernel manages its affinity, where that is known.
    pub managed: Option<bool>,
    /// What was done.
    pub action: String,
}

/// Whether `s` ends the sync with this report.
pub open spec fn ends(s: Step, managed: Option<bool>, action: Seq<char>) -> bool {
    s matches Step::Done(r) && r.managed == managed && r.action@ == action
}

/// Numbers in a list, the first `k` of them.
pub open spec fn listed(v: Seq<u32>, k: nat) -> Seq<char>
    decreases k,
{
    if k == 0 {
        "["@
    } else if k == 1 {
        "["@ + text::decimal(v[0] as nat)
    } else {
        listed(v, (k - 1) as nat) + ", "@ + text::decimal(v[k - 1] as nat)
    }
}

/// `irq(s)` told to follow the io-thread.
pub open spec fn nic_follows(irqs: Seq<u32>, cpu: usize) -> Seq<char> {
    "nic-follows-iothread: irq(s) "@ + listed(irqs, irqs.len()) + "] smp_affinity -> cpu "@
        + text::decimal(cpu as nat)
}

/// The io-thread told to follow a managed IRQ.
pub open spec fn thread_follows(why: Seq<char>, idx: usize, cpu: usize, pull: nat) -> Seq<char> {
    "managed ("@ + why + "): iothread-follows-nic: io-thread "@ + text::decimal(idx as nat)
        + " cpu "@ + text::decimal(cpu as nat) + " -> "@ + text::decimal(pull)
        + " (applies on next connect)"@
}

/// A managed IRQ nobody can follow.
pub open spec fn unreadable(why: Seq<char>) -> Seq<char> {
    "managed ("@ + why + ") but NIC effective affinity unreadable; left unchanged"@
}

/// An unpinned io-thread told to follow the NIC.
pub open spec fn unpinned_follows(idx: usize, pull: nat) -> Seq<char> {
    "iothread unpinned: iothread-follows-nic: io-thread "@ + text::decimal(idx as nat)
        + " cpu -> "@ + text::decimal(pull) + " (applies on next connect)"@
}

fn say_listed(s: &mut String, v: &Vec<u32>)
    ensures
        final(s)@ == old(s)@ + listed(v@, v@.len()),
{
    let n: usize = v.len();
    let ghost before = s@;
    say(s, "[");
    for k in 0..n
        invariant
            n == v@.len(),
            s@ == before + listed(v@, k as nat),
    {
        if k > 0 {
            say(s, ", ");
        }
        say_number(s, v[k] as u64);
        assert(s@ =~= before + listed(v@, (k + 1) as nat));
    }
}

impl QueueSync {
    /// The IRQ being written is one of the queue's.
    pub open spec fn wf(&self) -> bool {
        self.stage matches Stage::Writing { at, .. } ==> at < self.irqs@.len()
    }

    /// The IRQ whose CPU an io-thread adopts: the rx one (receiving is the hot
    /// path), else the tx one.
    pub open spec fn pulled(&self) -> Option<u32> {
        match self.rx_irq {
            Some(i) => Some(i),
            None => self.tx_irq,
        }
    }

    /// Begin with queue `idx`, given the CPU of each io-thread.
    pub fn start(irqs: &NicIrqs, idx: usize, io_cpus: &Vec<Option<usize>>) -> (r: (
        QueueSync,
        Step,
    ))
        ensures
            r.0.wf(),
            r.0.idx == idx,
            r.0.rx_irq == irq_at(irqs@.rx, idx),
            r.0.tx_irq == irq_at(irqs@.tx, idx),
            r.0.irqs@ == distinct(irqs@, idx),
            if idx >= io_cpus@.len() {
                r.0.stage is Over && ends(r.1, None, "skipped: more NIC queues than io-threads"@)
            } else {
                match io_cpus@[idx as int] {
                    Some(cpu) => if distinct(irqs@, idx).len() == 0 {
                        r.0.stage is Over && ends(r.1, Some(false), nic_follows(seq![], cpu))
                    } else {
                        &&& r.0.stage matches Stage::Writing { cpu: c, at } && c == cpu && at == 0
                        &&& r.1 matches Step::Write { irq, cpu: c } && irq == distinct(
                            irqs@,
                            idx,
                        )[0] && c == cpu
                    },
                    None => match r.0.pulled() {
                        Some(irq) => {
                            &&& r.0.stage is Unpinned
                            &&& r.1 matches Step::Read { irq: i } && i == irq
                        },
                        None => r.0.stage is Over && ends(
                            r.1,
                            None,
                            "iothread unpinned and NIC effective affinity unreadable; skipped"@,
                        ),
                    },
                }
            },
    {
        let mut q = QueueSync {
            idx,
            rx_irq: irq_of(&irqs.rx, idx),
            tx_irq: irq_of(&irqs.tx, idx),
            irqs: distinct_irqs(irqs, idx),
            stage: Stage::Over,
        };
        if idx >= io_cpus.len() {
            let action = owned("skipped: more NIC queues than io-threads");
            return (q, Step::Done(Report { managed: None, action }));
        }
        match io_cpus[idx] {
            Some(cpu) => {
                // Try the unmanaged direction: NIC follows the io-thread.
                if q.irqs.len() == 0 {
                    assert(q.irqs@ =~= seq![]);
                    let step = q.followed(cpu);
                    (q, step)
                } else {
                    q.stage = Stage::Writing { cpu, at: 0 };
                    let irq: u32 = q.irqs[0];
                    (q, Step::Write { irq, cpu })
                }
            },
            None => match q.pull_irq() {
                // io-thread unpinned: only the pull direction makes sense.
                Some(irq) => {
                    q.stage = Stage::Unpinned;
                    (q, Step::Read { irq })
                },
                None => {
                    let action = owned(
                        "iothread unpinned and NIC effective affinity unreadable; skipped",
                    );
                    (q, Step::Done(Report { managed: None, action }))
                },
            },
        }
    }

    fn pull_irq(&self) -> (r: Option<u32>)
        ensures
            r == self.pulled(),
    {
        match self.rx_irq {
            Some(i) => Some(i),
            None => self.tx_irq,
        }
    }

    /// Every IRQ follows the io-thread.
    fn followed(&mut self, cpu: usize) -> (r: Step)
        ensures
            *final(self) == (QueueSync { stage: Stage::Over, ..*old(self) }),
            ends(r, Some(false), nic_follows(old(self).irqs@, cpu)),
    {
        self.stage = Stage::Over;
        let mut s = owned("nic-follows-iothread: irq(s) ");
        say_listed(&mut s, &self.irqs);
        say(&mut s, "] smp_affinity -> cpu ");
        say_number(&mut s, cpu as u64);
        assert(s@ =~= nic_follows(self.irqs@, cpu));
        Step::Done(Report { managed: Some(false), action: s })
    }

    /// The write went through, or was refused for this reason: then the
    /// affinity is managed, and the io-thread follows the NIC.
    pub fn wrote(&mut self, refused: Option<String>) -> (r: Step)
        requires
            old(self).wf(),
            old(self).stage is Writing,
        ensures
            final(self).wf(),
            *final(self) == (QueueSync { stage: final(self).stage, ..*old(self) }),
            old(self).stage matches Stage::Writing { cpu, at } && match refused {
                None => if at + 1 < old(self).irqs@.len() {
                    &&& final(self).stage matches Stage::Writing { cpu: c, at: k } && c == cpu && k
                        == at + 1
                    &&& r matches Step::Write { irq, cpu: c } && irq == old(self).irqs@[at + 1]
                        && c == cpu
                } else {
                    final(self).stage is Over && ends(
                        r,
                        Some(false),
                        nic_follows(old(self).irqs@, cpu),
                    )
                },
                Some(why) => match old(self).pulled() {
                    Some(irq) => {
                        &&& final(self).stage matches Stage::Managed { cpu: c, why: w } && c == cpu
                            && w@ == why@
                        &&& r matches Step::Read { irq: i } && i == irq
                    },
                    None => final(self).stage is Over && ends(r, Some(true), unreadable(why@)),
                },
            },
    {
        let (cpu, at): (usize, usize) = match &self.stage {
            Stage::Writing { cpu, at } => (*cpu, *at),
            _ => (0, 0),
        };
        match refused {
            None => {
                let n: usize = self.irqs.len();
                if at + 1 < n {
                    self.stage = Stage::Writing { cpu, at: at + 1 };
                    Step::Write { irq: self.irqs[at + 1], cpu }
                } else {
                    self.followed(cpu)
                }
            },
            Some(why) => match self.pull_irq() {
                Some(irq) => {
                    self.stage = Stage::Managed { cpu, why };
                    Step::Read { irq }
                },
                None => {
                    self.stage = Stage::Over;
                    let mut s = owned("managed (");
                    say(&mut s, why.as_str());
                    say(&mut s, ") but NIC effective affinity unreadable; left unchanged");
                    assert(s@ =~= unreadable(why@));
                    Step::Done(Report { managed: Some(true), action: s })
                },
            },
        }
    }

    /// The NIC's effective affinity is this, if it could be read: its first
    /// CPU becomes the io-thread's.
    pub fn read(&mut self, eff: Option<&str>, io_cpus: &mut Vec<Option<usize>>) -> (r: Report)
        requires
            old(self).stage is Managed || old(self).stage is Unpinned,
            old(self).idx < old(io_cpus)@.len(),
        ensures
            *final(self) == (QueueSync { stage: Stage::Over, ..*old(self) }),
            ({
                let pull = match eff {
                    Some(e) => leading_cpu(e@),
                    None => None,
                };
                &&& final(io_cpus)@ == (match pull {
                    Some(p) => old(io_cpus)@.update(old(self).idx as int, Some(p as usize)),
                    None => old(io_cpus)@,
                })
                &&& match old(self).stage {
                    Stage::Managed { cpu, why } => {
                        &&& r.managed == Some(true)
                        &&& r.action@ == (match pull {
                            Some(p) => thread_follows(why@, old(self).idx, cpu, p),
                            None => unreadable(why@),
                        })
                    },
                    _ => {
                        &&& r.managed is None
                        &&& r.action@ == (match pull {
                            Some(p) => unpinned_follows(old(self).idx, p),
                            None =>
                                "iothread unpinned and NIC effective affinity unreadable; skipped"@,
                        })
                    },
                }
            }),
    {
        let pull = match eff {
            Some(e) => first_cpu(e),
            None => None,
        };
        let idx: usize = self.idx;
        let mut stage = Stage::Over;
        std::mem::swap(&mut stage, &mut self.stage);
        match pull {
            Some(p) => {
                io_cpus[idx] = Some(p);
            },
            None => {},
        }
        match stage {
            Stage::Managed { cpu, why } => {
                let mut s = owned("managed (");
                say(&mut s, why.as_str());
                match pull {
                    Some(p) => {
                        say(&mut s, "): iothread-follows-nic: io-thread ");
                        say_number(&mut s, idx as u64);
                        say(&mut s, " cpu ");
                        say_number(&mut s, cpu as u64);
                        say(&mut s, " -> ");
                        say_number(&mut s, p as u64);
                        say(&mut s, " (applies on next connect)");
                        assert(s@ =~= thread_follows(why@, idx, cpu, p as nat));
                    },
                    None => {
                        say(&mut s, ") but NIC effective affinity unreadable; left unchanged");
                        assert(s@ =~= unreadable(why@));
                    },
                }
                Report { managed: Some(true), action: s }
            },
            _ => {
                match pull {
                    Some(p) => {
                        let mut s = owned("iothread unpinned: iothread-follows-nic: io-thread ");
                        say_number(&mut s, idx as u64);
                        say(&mut s, " cpu -> ");
                        say_number(&mut s, p as u64);
                        say(&mut s, " (applies on next connect)");
                        assert(s@ =~= unpinned_follows(idx, p as nat));
                        Report { managed: None, action: s }
                    },
                    None => {
                        let action = owned(
                            "iothread unpinned and NIC effective affinity unreadable; skipped",
                        );
                        Report { managed: None, action }
                    },
                }
            },
        }
    }
}

// ---------------------------------------------------------------------------
// What an interrupt table means
// ---------------------------------------------------------------------------

proof fn lemma_label_of(head: Seq<char>, nic: Seq<char>, word: Seq<char>, idx: usize)
    requires
        forall|j: int|
            0 <= j < head.len() ==> !#[trigger] text::occurs_at(
                head + nic + "-"@ + word + text::decimal(idx as nat),
                nic,
                j,
            ),
        word == "TxRx-"@ || word == "rx-"@ || word == "tx-"@,
    ensures
        label(head + nic + "-"@ + word + text::decimal(idx as nat), nic) == Some(
            (
                if word == "TxRx-"@ {
                    Role::TxRx
                } else if word == "rx-"@ {
                    Role::Rx
                } else {
                    Role::Tx
                },
                idx,
            ),
        ),
{
    reveal_strlit("-");
    reveal_strlit("TxRx-");
    reveal_strlit("rx-");
    reveal_strlit("tx-");
    let num = text::decimal(idx as nat);
    let tok = head + nic + "-"@ + word + num;
    assert(tok.subrange(head.len() as int, (head.len() + nic.len()) as int) =~= nic);
    assert(text::occurs_at(tok, nic, head.len() as int));
    text::lemma_first_from(tok, nic, 0, Some(head.len() as int));
    let after = tok.skip((head.len() + nic.len()) as int);
    assert(after =~= "-"@ + word + num);
    let rest = after.drop_first();
    assert(rest =~= word + num);
    assert(rest.take(word.len() as int) =~= word);
    assert(rest.skip(word.len() as int) =~= num);
    if word == "rx-"@ {
        assert(rest[0] == 'r');
        assert("TxRx-"@[0] == 'T');
        if text::has_prefix(rest, "TxRx-"@) {
            assert(rest.take("TxRx-"@.len() as int)[0] == rest[0]);
        }
    } else if word == "tx-"@ {
        assert(rest[0] == 't');
        assert("TxRx-"@[0] == 'T');
        assert("rx-"@[0] == 'r');
        if text::has_prefix(rest, "TxRx-"@) {
            assert(rest.take("TxRx-"@.len() as int)[0] == rest[0]);
        }
        if text::has_prefix(rest, "rx-"@) {
            assert(rest.take("rx-"@.len() as int)[0] == rest[0]);
        }
    }
    text::lemma_number_of_decimal(idx as nat, usize::MAX as nat);
}

/// A queue's label is recognized whatever the driver writes before the NIC's
/// name: `-TxRx-`, `-rx-` and `-tx-` behind it say which way the queue goes, and
/// the number behind that is the queue's.
pub proof fn lemma_labels(head: Seq<char>, nic: Seq<char>, idx: usize)
    requires
        forall|t: Seq<char>, j: int|
            0 <= j < head.len() ==> !#[trigger] text::occurs_at(head + nic + t, nic, j),
    ensures
        label(head + nic + ("-TxRx-"@ + text::decimal(idx as nat)), nic) == Some((Role::TxRx, idx)),
        label(head + nic + ("-rx-"@ + text::decimal(idx as nat)), nic) == Some((Role::Rx, idx)),
        label(head + nic + ("-tx-"@ + text::decimal(idx as nat)), nic) == Some((Role::Tx, idx)),
{
    reveal_strlit("-");
    reveal_strlit("TxRx-");
    reveal_strlit("rx-");
    reveal_strlit("tx-");
    reveal_strlit("-TxRx-");
    reveal_strlit("-rx-");
    reveal_strlit("-tx-");
    let num = text::decimal(idx as nat);
    assert("-TxRx-"@ =~= "-"@ + "TxRx-"@);
    assert("-rx-"@ =~= "-"@ + "rx-"@);
    assert("-tx-"@ =~= "-"@ + "tx-"@);
    assert(head + nic + ("-TxRx-"@ + num) =~= head + nic + "-"@ + "TxRx-"@ + num);
    assert(head + nic + ("-rx-"@ + num) =~= head + nic + "-"@ + "rx-"@ + num);
    assert(head + nic + ("-tx-"@ + num) =~= head + nic + "-"@ + "tx-"@ + num);
    assert("rx-"@[0] == 'r' && "tx-"@[0] == 't' && "TxRx-"@[0] == 'T');
    lemma_label_of(head, nic, "TxRx-"@, idx);
    lemma_label_of(head, nic, "rx-"@, idx);
    lemma_label_of(head, nic, "tx-"@, idx);
}

/// Whether a word of an IRQ's line says that it receives for queue `q`.
pub open spec fn receives(tok: Seq<char>, nic: Seq<char>, q: usize) -> bool {
    label(tok, nic) matches Some((role, i)) && i == q && role != Role::Tx
}

/// Whether a word of an IRQ's line says that it sends for queue `q`.
pub open spec fn sends(tok: Seq<char>, nic: Seq<char>, q: usize) -> bool {
    label(tok, nic) matches Some((role, i)) && i == q && role != Role::Rx
}

/// An IRQ is put down for the queues that its words name, for the ways that they
/// name, and for nothing else.
pub proof fn lemma_words_noted(m: Irqs, irq: u32, toks: Seq<Seq<char>>, nic: Seq<char>, q: usize)
    ensures
        ({
            let after = tokens_read(m, irq, toks, nic, toks.len());
            &&& irq_at(after.rx, q) == (if exists|t: int|
                0 <= t < toks.len() && receives(#[trigger] toks[t], nic, q) {
                Some(irq)
            } else {
                irq_at(m.rx, q)
            })
            &&& irq_at(after.tx, q) == (if exists|t: int|
                0 <= t < toks.len() && sends(#[trigger] toks[t], nic, q) {
                Some(irq)
            } else {
                irq_at(m.tx, q)
            })
        }),
{
    lemma_words_noted_upto(m, irq, toks, nic, q, toks.len());
}

proof fn lemma_words_noted_upto(
    m: Irqs,
    irq: u32,
    toks: Seq<Seq<char>>,
    nic: Seq<char>,
    q: usize,
    k: nat,
)
    requires
        k <= toks.len(),
    ensures
        ({
            let after = tokens_read(m, irq, toks, nic, k);
            &&& irq_at(after.rx, q) == (if exists|t: int|
                0 <= t < k && receives(#[trigger] toks[t], nic, q) {
                Some(irq)
            } else {
                irq_at(m.rx, q)
            })
            &&& irq_at(after.tx, q) == (if exists|t: int|
                0 <= t < k && sends(#[trigger] toks[t], nic, q) {
                Some(irq)
            } else {
                irq_at(m.tx, q)
            })
        }),
    decreases k,
{
    if k > 0 {
        let j = (k - 1) as nat;
        lemma_words_noted_upto(m, irq, toks, nic, q, j);
        let prev = tokens_read(m, irq, toks, nic, j);
        let after = tokens_read(m, irq, toks, nic, k);
        let tok = toks[k - 1];
        if receives(tok, nic, q) {
            assert(after.rx[q] == irq);
        } else {
            assert(irq_at(after.rx, q) == irq_at(prev.rx, q));
            assert((exists|t: int| 0 <= t < k && receives(#[trigger] toks[t], nic, q)) == (exists|
                t: int,
            | 0 <= t < j && receives(#[trigger] toks[t], nic, q)));
        }
        if sends(tok, nic, q) {
            assert(after.tx[q] == irq);
        } else {
            assert(irq_at(after.tx, q) == irq_at(prev.tx, q));
            assert((exists|t: int| 0 <= t < k && sends(#[trigger] toks[t], nic, q)) == (exists|
                t: int,
            | 0 <= t < j && sends(#[trigger] toks[t], nic, q)));
        }
    }
}

/// A line with an IRQ number before its first colon is that IRQ's line; one
/// without says nothing.
pub proof fn lemma_line(m: Irqs, lead: Seq<char>, irq: u32, rest: Seq<char>, nic: Seq<char>)
    requires
        text::blank(lead),
        text::free_of(lead, ':'),
    ensures
        line_read(m, lead + text::decimal(irq as nat) + ":"@ + rest, nic) == tokens_read(
            m,
            irq,
            text::words(rest),
            nic,
            text::words(rest).len(),
        ),
        text::free_of(rest, ':') ==> line_read(m, rest, nic) == m,
{
    reveal_strlit(":");
    let num = text::decimal(irq as nat);
    let head = lead + num;
    text::lemma_decimal(irq as nat);
    assert(text::free_of(head, ':')) by {
        assert forall|i: int| 0 <= i < head.len() implies #[trigger] head[i] != ':' by {
            if i >= lead.len() {
                assert(text::is_digit(num[i - lead.len()]));
            } else {
                assert(lead[i] != ':');
            }
        }
    }
    let line = lead + num + ":"@ + rest;
    assert(":"@ =~= seq![':']);
    assert(line =~= head + seq![':'] + rest);
    text::lemma_cut(head, ':', rest);
    assert(text::is_digit(num[0]) && text::is_digit(num.last()));
    text::lemma_trimmed(lead, num, seq![]);
    assert(lead + num + seq![] =~= head);
    text::lemma_number_of_decimal(irq as nat, u32::MAX as nat);
    if text::free_of(rest, ':') {
        text::lemma_cut(rest, ':', rest);
    }
}

/// The lines of a table are read one after the other, each on top of what those
/// before it said.
pub proof fn lemma_table(lines: Seq<Seq<char>>, last: Seq<char>, nic: Seq<char>)
    requires
        lines.len() > 0,
        text::free_of(last, '\n'),
        forall|i: int| 0 <= i < lines.len() ==> text::free_of(#[trigger] lines[i], '\n'),
    ensures
        interrupts(text::joined(lines.push(last), '\n'), nic) == line_read(
            interrupts(text::joined(lines, '\n'), nic),
            last,
            nic,
        ),
{
    let all = lines.push(last);
    assert forall|i: int| 0 <= i < all.len() implies text::before(#[trigger] all[i], '\n')
        == all[i].len() by {
        text::lemma_before_is(all[i], '\n', all[i].len() as int);
    }
    assert forall|i: int| 0 <= i < lines.len() implies text::before(#[trigger] lines[i], '\n')
        == lines[i].len() by {
        assert(all[i] == lines[i]);
    }
    text::lemma_split_joined(all, '\n');
    text::lemma_split_joined(lines, '\n');
    lemma_table_prefix(all, lines, nic, lines.len());
}

proof fn lemma_table_prefix(a: Seq<Seq<char>>, b: Seq<Seq<char>>, nic: Seq<char>, k: nat)
    requires
        k <= a.len(),
        k <= b.len(),
        forall|i: int| 0 <= i < k ==> a[i] == b[i],
    ensures
        lines_read(a, nic, k) == lines_read(b, nic, k),
    decreases k,
{
    if k > 0 {
        lemma_table_prefix(a, b, nic, (k - 1) as nat);
    }
}

/// The IRQs of a queue are its rx one and its tx one, each once, the rx one
/// first.
pub proof fn lemma_distinct(m: Irqs, q: usize, irq: u32)
    ensures
        distinct(m, q).contains(irq) <==> (m.rx.dom().contains(q) && m.rx[q] == irq) || (
        m.tx.dom().contains(q) && m.tx[q] == irq),
        distinct(m, q).no_duplicates(),
        m.rx.dom().contains(q) ==> distinct(m, q).len() > 0 && distinct(m, q)[0] == m.rx[q],
{
    let d = distinct(m, q);
    if m.rx.dom().contains(q) {
        assert(d[0] == m.rx[q]);
    }
    if m.tx.dom().contains(q) {
        assert(d.last() == m.tx[q]);
        assert(d.contains(d[d.len() - 1]));
    }
}

/// The first CPU of a list is the number that the list begins with, whether a
/// comma, a dash or nothing follows.
pub proof fn lemma_leading_cpu(lead: Seq<char>, cpu: usize, tail: Seq<char>)
    requires
        text::blank(lead),
        text::free_of(lead, ','),
        text::free_of(lead, '-'),
        tail.len() > 0 ==> tail[0] == ',' || tail[0] == '-',
    ensures
        leading_cpu(lead + text::decimal(cpu as nat) + tail) == Some(cpu as nat),
{
    let num = text::decimal(cpu as nat);
    let head = lead + num;
    let list = head + tail;
    text::lemma_decimal(cpu as nat);
    assert forall|i: int| 0 <= i < head.len() implies #[trigger] list[i] != ',' && list[i]
        != '-' by {
        if i >= lead.len() {
            assert(text::is_digit(num[i - lead.len()]));
        } else {
            assert(lead[i] != ',' && lead[i] != '-');
        }
    }
    let n = head.len() as int;
    text::lemma_before(list, ',');
    text::lemma_before(list, '-');
    if tail.len() > 0 {
        assert(list[n] == tail[0]);
    }
    let a = text::before(list, ',');
    let b = text::before(list, '-');
    assert(a >= n) by {
        if a < n {
            assert(list[a] == ',');
        }
    }
    assert(b >= n) by {
        if b < n {
            assert(list[b] == '-');
        }
    }
    assert(list.take(n) =~= head);
    assert(text::is_digit(num[0]) && text::is_digit(num.last()));
    text::lemma_trimmed(lead, num, seq![]);
    assert(lead + num + seq![] =~= head);
    text::lemma_number_of_decimal(cpu as nat, usize::MAX as nat);
}

/// An io-thread adopts the CPU of the IRQ that receives, where there is one.
pub proof fn lemma_pulled(q: QueueSync)
    ensures
        q.rx_irq is Some ==> q.pulled() == q.rx_irq,
        q.rx_irq is None ==> q.pulled() == q.tx_irq,
{
}

/// A report names the CPU an io-thread leaves before the one it takes, and the
/// thread by its number.
pub proof fn lemma_reports(why: Seq<char>, idx: usize, cpu: usize, pull: nat)
    ensures
        text::has_prefix(
            thread_follows(why, idx, cpu, pull),
            "managed ("@ + why + "): iothread-follows-nic: io-thread "@ + text::decimal(idx as nat)
                + " cpu "@ + text::decimal(cpu as nat),
        ),
        text::has_prefix(
            unpinned_follows(idx, pull),
            "iothread unpinned: iothread-follows-nic: io-thread "@ + text::decimal(idx as nat),
        ),
{
    let a = "managed ("@ + why + "): iothread-follows-nic: io-thread "@ + text::decimal(idx as nat)
        + " cpu "@ + text::decimal(cpu as nat);
    let b = "iothread unpinned: iothread-follows-nic: io-thread "@ + text::decimal(idx as nat);
    assert(thread_follows(why, idx, cpu, pull).take(a.len() as int) =~= a);
    assert(unpinned_follows(idx, pull).take(b.len() as int) =~= b);
}

} // verus!
