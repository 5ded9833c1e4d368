//! SSD1309 OLED controller.
//!
//! Frames are pushed page by page in page addressing mode, which avoids the
//! large-transfer limit of the Raspberry Pi 5 RP1 I2C controller.
//!
//! The controller is generic over [`I2cDevice`]. Every bus operation it issues is
//! recorded in a ghost log ([`Ssd1309::log`]), so that the contracts state the
//! exact command stream each method sends, and where it stops when the bus fails.
use super::framebuffer::{BUFFER_LEN, Framebuffer};
use super::i2c_bus::I2cDevice;
use super::{default_config, DisplayConfig, DisplayRotation, ScrollDirection};
use vstd::prelude::*;

verus! {

// ---------------------------------------------------------------------------
// The command stream
// ---------------------------------------------------------------------------

/// One operation on the bus.
pub enum BusOp {
    /// A command write (control byte 0x00) with these bytes.
    Command(Seq<u8>),
    /// A GDDRAM data write (control byte 0x40) with these bytes.
    Data(Seq<u8>),
    /// A pause of this many milliseconds.
    Delay(u64),
    /// Opening the device at `addr` on bus `bus_id`.
    Open(u8, u8),
    /// A read of the controller's status register.
    StatusRead,
}

/// An operation as issued, and whether the bus reported success.
pub struct BusEvent {
    pub op: BusOp,
    pub ok: bool,
}

/// `ev` are the events of running `ops` in order and stopping at the first
/// failed step; `ok` is whether every step ran and succeeded.
pub open spec fn performed(ev: Seq<BusEvent>, ops: Seq<BusOp>, ok: bool) -> bool {
    &&& ev.len() <= ops.len()
    &&& forall|i: int| 0 <= i < ev.len() ==> #[trigger] ev[i].op == ops[i]
    &&& forall|i: int| 0 <= i < ev.len() - 1 ==> #[trigger] ev[i].ok
    &&& if ok {
        ev.len() == ops.len() && (ev.len() == 0 || ev.last().ok)
    } else {
        ev.len() > 0 && !ev.last().ok
    }
}

/// The log went from `before` to `after` by running `ops` (see [`performed`]).
pub open spec fn ran(before: Seq<BusEvent>, after: Seq<BusEvent>, ops: Seq<BusOp>, ok: bool) -> bool {
    &&& before.len() <= after.len()
    &&& after.subrange(0, before.len() as int) == before
    &&& performed(after.subrange(before.len() as int, after.len() as int), ops, ok)
}

pub open spec fn command(bytes: Seq<u8>) -> BusOp {
    BusOp::Command(bytes)
}

/// One command per byte sequence.
pub open spec fn commands(cmds: Seq<Seq<u8>>) -> Seq<BusOp> {
    Seq::new(cmds.len(), |i: int| command(cmds[i]))
}

/// `high` and `low` packed as the high and low nibble of one byte.
pub open spec fn nibbles(high: u8, low: u8) -> u8 {
    ((high & 0x0F) << 4u8) | (low & 0x0F)
}

/// Segment remap and COM scan direction for an orientation.
pub open spec fn rotation_commands(rotation: DisplayRotation) -> Seq<Seq<u8>> {
    match rotation {
        DisplayRotation::Rotate0 => seq![seq![0xA1u8], seq![0xC8u8]],
        DisplayRotation::Rotate180 => seq![seq![0xA0u8], seq![0xC0u8]],
    }
}

/// Initialisation commands before the DC-DC converter settles.
pub open spec fn init_commands_head(c: DisplayConfig) -> Seq<Seq<u8>> {
    seq![
        seq![0xAEu8],
        seq![0xD5u8, nibbles(c.clock_frequency, c.clock_divide_ratio)],
        seq![0xA8u8, c.multiplex_ratio],
        seq![0xD3u8, c.display_offset],
        seq![0x40u8 | (c.start_line & 0x3F)],
        seq![0x8Du8, if c.charge_pump_enabled { 0x14u8 } else { 0x10u8 }],
        seq![0xADu8, 0x8Au8],
    ]
}

/// Initialisation commands after the DC-DC converter settles.
pub open spec fn init_commands_tail(c: DisplayConfig) -> Seq<Seq<u8>> {
    seq![seq![0x20u8, 0x02u8]] + rotation_commands(c.rotation) + seq![
        seq![0xDAu8, c.com_pins_config],
        seq![0x81u8, c.contrast],
        seq![0xD9u8, nibbles(c.precharge_phase2, c.precharge_phase1)],
        seq![0xDBu8, c.vcomh_level],
        seq![0xA4u8],
        seq![if c.inverted { 0xA7u8 } else { 0xA6u8 }],
    ] + if c.display_on {
        seq![seq![0xAFu8]]
    } else {
        Seq::<Seq<u8>>::empty()
    }
}

/// Pause after the DC-DC converter is switched on, in milliseconds.
pub const DC_DC_SETTLE_MS: u64 = 100;

/// The complete initialisation sequence for `c`: display off, clock, multiplex,
/// offset, start line, charge pump, DC-DC converter, a pause, page addressing
/// mode, orientation, COM pins, contrast, pre-charge, VCOMH, resume from RAM,
/// normal/inverse, and display on when `c.display_on`.
pub open spec fn init_ops(c: DisplayConfig) -> Seq<BusOp> {
    commands(init_commands_head(c)) + seq![BusOp::Delay(DC_DC_SETTLE_MS)] + commands(
        init_commands_tail(c),
    )
}

/// Page address, column address and data for columns `[x, x + w)` of `page`.
pub open spec fn page_ops(bytes: Seq<u8>, page: int, x: int, w: int) -> Seq<BusOp> {
    seq![
        command(seq![0xB0u8 | (page as u8)]),
        command(seq![(x as u8) & 0x0F, 0x10u8 | (((x as u8) >> 4u8) & 0x07)]),
        BusOp::Data(bytes.subrange(page * 128 + x, page * 128 + x + w)),
    ]
}

/// [`page_ops`] for the pages `first..=last`, in order.
pub open spec fn pages_ops(bytes: Seq<u8>, first: int, last: int, x: int, w: int) -> Seq<BusOp>
    decreases last - first + 1,
{
    if last < first {
        Seq::empty()
    } else {
        pages_ops(bytes, first, last - 1, x, w) + page_ops(bytes, last, x, w)
    }
}

/// The transfer of region `(x, y, w, h)`, clipped to the screen: every page the
/// rows touch, restricted to the columns of the region.
pub open spec fn region_ops(bytes: Seq<u8>, x: int, y: int, w: int, h: int) -> Seq<BusOp> {
    let x = if x <= 128 {
        x
    } else {
        128
    };
    let w = if w <= 128 - x {
        w
    } else {
        128 - x
    };
    let y0 = if y <= 64 {
        y
    } else {
        64
    };
    let y1 = if y + h <= 64 {
        y + h
    } else {
        64
    };
    if w == 0 || y0 >= y1 {
        Seq::empty()
    } else {
        pages_ops(bytes, y0 / 8, (y1 - 1) / 8, x, w)
    }
}

/// The transfer of a whole frame: the 8 pages, 128 columns each.
pub open spec fn frame_ops(bytes: Seq<u8>) -> Seq<BusOp> {
    pages_ops(bytes, 0, 7, 0, 128)
}

/// Horizontal scroll setup followed by scroll activation.
pub open spec fn hardware_scroll_ops(dir: ScrollDirection, start_page: u8, end_page: u8, speed: u8) -> Seq<
    BusOp,
> {
    seq![
        command(
            seq![
                match dir {
                    ScrollDirection::Right => 0x26u8,
                    ScrollDirection::Left => 0x27u8,
                },
                0x00u8,
                start_page & 0x07,
                speed,
                end_page & 0x07,
                0x00u8,
                0xFFu8,
            ],
        ),
        command(seq![0x2Fu8]),
    ]
}

// ---------------------------------------------------------------------------
// Lemmas about runs
// ---------------------------------------------------------------------------

pub proof fn lemma_ran_empty(a: Seq<BusEvent>)
    ensures
        ran(a, a, Seq::empty(), true),
{
    assert(a.subrange(0, a.len() as int) =~= a);
    assert(a.subrange(a.len() as int, a.len() as int) =~= Seq::<BusEvent>::empty());
}

pub proof fn lemma_ran_one(a: Seq<BusEvent>, ev: BusEvent)
    ensures
        ran(a, a.push(ev), seq![ev.op], ev.ok),
{
    let b = a.push(ev);
    assert(b.subrange(0, a.len() as int) =~= a);
    assert(b.subrange(a.len() as int, b.len() as int) =~= seq![ev]);
}

/// A successful run followed by another run is one run of both sequences.
pub proof fn lemma_ran_then(
    a: Seq<BusEvent>,
    b: Seq<BusEvent>,
    c: Seq<BusEvent>,
    o1: Seq<BusOp>,
    o2: Seq<BusOp>,
    ok: bool,
)
    requires
        ran(a, b, o1, true),
        ran(b, c, o2, ok),
    ensures
        ran(a, c, o1 + o2, ok),
{
    let e1 = b.subrange(a.len() as int, b.len() as int);
    let e2 = c.subrange(b.len() as int, c.len() as int);
    let e = c.subrange(a.len() as int, c.len() as int);
    assert(c.subrange(0, b.len() as int) == b);
    assert(e =~= e1 + e2);
    assert(c.subrange(0, a.len() as int) =~= a) by {
        assert(c.subrange(0, a.len() as int) =~= b.subrange(0, a.len() as int));
    }
    let o = o1 + o2;
    assert forall|i: int| 0 <= i < e.len() implies #[trigger] e[i].op == o[i] by {
        if i < e1.len() {
            assert(e[i] == e1[i]);
        } else {
            assert(e[i] == e2[i - e1.len()]);
        }
    }
    assert forall|i: int| 0 <= i < e.len() - 1 implies #[trigger] e[i].ok by {
        if i < e1.len() {
            assert(e[i] == e1[i]);
            if i == e1.len() - 1 {
                assert(e1.last().ok);
            }
        } else {
            assert(e[i] == e2[i - e1.len()]);
        }
    }
    if e2.len() == 0 {
        assert(e =~= e1);
    } else {
        assert(e.last() == e2.last());
    }
}

/// A successful run followed by one more event is a run of one more operation.
pub proof fn lemma_ran_push(a: Seq<BusEvent>, b: Seq<BusEvent>, done: Seq<BusOp>, ev: BusEvent)
    requires
        ran(a, b, done, true),
    ensures
        ran(a, b.push(ev), done.push(ev.op), ev.ok),
{
    lemma_ran_one(b, ev);
    lemma_ran_then(a, b, b.push(ev), done, seq![ev.op], ev.ok);
    assert(done + seq![ev.op] =~= done.push(ev.op));
}

/// The pages `first..=last` are the pages `first..=mid` followed by `mid + 1..=last`.
pub proof fn lemma_pages_ops_split(bytes: Seq<u8>, first: int, mid: int, last: int, x: int, w: int)
    requires
        first - 1 <= mid <= last,
    ensures
        pages_ops(bytes, first, last, x, w) == pages_ops(bytes, first, mid, x, w) + pages_ops(
            bytes,
            mid + 1,
            last,
            x,
            w,
        ),
    decreases last - mid,
{
    if mid == last {
        assert(pages_ops(bytes, mid + 1, last, x, w) =~= Seq::<BusOp>::empty());
        assert(pages_ops(bytes, first, last, x, w) + Seq::<BusOp>::empty() =~= pages_ops(
            bytes,
            first,
            last,
            x,
            w,
        ));
    } else {
        lemma_pages_ops_split(bytes, first, mid, last - 1, x, w);
        lemma_pages_ops_split(bytes, mid + 1, last - 1, last - 1, x, w);
        assert(pages_ops(bytes, mid + 1, last, x, w) == pages_ops(bytes, mid + 1, last - 1, x, w)
            + page_ops(bytes, last, x, w));
        assert(pages_ops(bytes, first, last, x, w) =~= pages_ops(bytes, first, mid, x, w) + pages_ops(
            bytes,
            mid + 1,
            last,
            x,
            w,
        ));
    }
}

/// Runs are unaffected by what precedes them in the log.
pub proof fn lemma_ran_after(p: Seq<BusEvent>, a: Seq<BusEvent>, b: Seq<BusEvent>, ops: Seq<BusOp>, ok: bool)
    requires
        ran(a, b, ops, ok),
    ensures
        ran(p + a, p + b, ops, ok),
{
    assert((p + b).subrange(0, (p + a).len() as int) =~= p + a) by {
        assert(b.subrange(0, a.len() as int) == a);
    }
    assert((p + b).subrange((p + a).len() as int, (p + b).len() as int) =~= b.subrange(
        a.len() as int,
        b.len() as int,
    ));
}

/// A failed run is a failed run of any longer sequence too.
pub proof fn lemma_ran_failed(a: Seq<BusEvent>, b: Seq<BusEvent>, o: Seq<BusOp>, more: Seq<BusOp>)
    requires
        ran(a, b, o, false),
    ensures
        ran(a, b, o + more, false),
{
    let e = b.subrange(a.len() as int, b.len() as int);
    assert forall|i: int| 0 <= i < e.len() implies #[trigger] e[i].op == (o + more)[i] by {}
}

// ---------------------------------------------------------------------------
// The controller
// ---------------------------------------------------------------------------

/// SSD1309 controller on the device `B`.
pub struct Ssd1309<B: I2cDevice> {
    bus: B,
    /// Every bus operation made through this controller, with its outcome.
    log: Ghost<Seq<BusEvent>>,
}

impl<B: I2cDevice> Ssd1309<B> {
    /// Every bus operation made through this controller since its
    /// initialisation began, with its outcome.
    pub closed spec fn log(&self) -> Seq<BusEvent> {
        self.log@
    }

    /// Calls [`I2cDevice::write_command`] on the device. Trusted: the log
    /// records exactly this call, a command with these bytes on the command
    /// channel, successful exactly when the device reports success.
    #[verifier::external_body]
    fn send_command(&mut self, bytes: &[u8]) -> (r: Result<(), std::io::Error>)
        ensures
            final(self).log() == old(self).log().push(BusEvent { op: command(bytes@), ok: r is Ok }),
    {
        self.bus.write_command(bytes)
    }

    /// Calls [`I2cDevice::write_data`] on the device. Trusted: the log records
    /// exactly this call, these bytes on the data channel, successful exactly
    /// when the device reports success.
    #[verifier::external_body]
    fn send_data(&mut self, bytes: &[u8]) -> (r: Result<(), std::io::Error>)
        ensures
            final(self).log() == old(self).log().push(BusEvent { op: BusOp::Data(bytes@), ok: r is Ok }),
    {
        self.bus.write_data(bytes)
    }

    /// Calls [`I2cDevice::delay_ms`] on the device. Trusted: the log records
    /// exactly this pause.
    #[verifier::external_body]
    pub(crate) fn pause(&mut self, ms: u64)
        ensures
            final(self).log() == old(self).log().push(BusEvent { op: BusOp::Delay(ms), ok: true }),
    {
        self.bus.delay_ms(ms);
    }

    /// Sends the commands in order, stopping at the first failure.
    fn send_commands(&mut self, cmds: &Vec<Vec<u8>>) -> (r: Result<(), std::io::Error>)
        ensures
            ran(
                old(self).log(),
                final(self).log(),
                commands(Seq::new(cmds@.len(), |i: int| cmds@[i]@)),
                r is Ok,
            ),
    {
        let ghost all = commands(Seq::new(cmds@.len(), |i: int| cmds@[i]@));
        proof {
            lemma_ran_empty(self.log());
            assert(all.take(0) =~= Seq::<BusOp>::empty());
        }
        let mut i: usize = 0;
        while i < cmds.len()
            invariant
                i <= cmds@.len(),
                all == commands(Seq::new(cmds@.len(), |i: int| cmds@[i]@)),
                ran(old(self).log(), self.log(), all.take(i as int), true),
            decreases cmds@.len() - i,
        {
            let ghost before = self.log();
            let r = self.send_command(cmds[i].as_slice());
            proof {
                lemma_ran_one(before, BusEvent { op: command(cmds@[i as int]@), ok: r is Ok });
                lemma_ran_then(
                    old(self).log(),
                    before,
                    self.log(),
                    all.take(i as int),
                    seq![command(cmds@[i as int]@)],
                    r is Ok,
                );
                assert(all.take(i as int) + seq![command(cmds@[i as int]@)] =~= all.take(i + 1));
            }
            if r.is_err() {
                proof {
                    lemma_ran_failed(old(self).log(), self.log(), all.take(i + 1), all.skip(i + 1));
                    assert(all.take(i + 1) + all.skip(i + 1) =~= all);
                }
                return r;
            }
            i = i + 1;
        }
        proof {
            assert(all.take(i as int) =~= all);
        }
        Ok(())
    }

    /// Initialises the controller with the default settings except the given
    /// contrast, inversion, and whether the display is switched on at the end.
    pub fn init(bus: B, contrast: u8, inverted: bool, display_on: bool) -> (r: Result<
        Self,
        std::io::Error,
    >)
        ensures
            r matches Ok(d) ==> ran(
                Seq::empty(),
                d.log(),
                init_ops(
                    DisplayConfig { contrast, inverted, display_on, ..default_config(0, 0) },
                ),
                true,
            ),
    {
        let mut config = DisplayConfig::new(0, 0);
        config.contrast = contrast;
        config.inverted = inverted;
        config.display_on = display_on;
        Self::init_with_config(bus, &config)
    }

    /// Initialises the controller with all settings of `config`.
    pub fn init_with_config(bus: B, config: &DisplayConfig) -> (r: Result<Self, std::io::Error>)
        ensures
            r matches Ok(d) ==> ran(Seq::empty(), d.log(), init_ops(*config), true),
    {
        let (r, _) = Self::init_logged(bus, config);
        r
    }

    /// [`init_with_config`](Self::init_with_config), also giving the operations
    /// issued, which a failed initialisation would otherwise lose with the device.
    pub(crate) fn init_logged(bus: B, config: &DisplayConfig) -> (res: (
        Result<Self, std::io::Error>,
        Ghost<Seq<BusEvent>>,
    ))
        ensures
            ran(Seq::empty(), res.1@, init_ops(*config), res.0 is Ok),
            res.0 matches Ok(d) ==> d.log() == res.1@,
    {
        let ghost start = Seq::<BusEvent>::empty();
        let mut dev = Ssd1309 { bus, log: Ghost(Seq::empty()) };
        proof {
            lemma_ran_empty(start);
        }
        let clock = ((config.clock_frequency & 0x0F) << 4) | (config.clock_divide_ratio & 0x0F);
        let head: Vec<Vec<u8>> = vec![
            vec![0xAE],  // display off (sleep)
            vec![0xD5, clock],  // clock divide ratio / oscillator frequency
            vec![0xA8, config.multiplex_ratio],  // multiplex ratio
            vec![0xD3, config.display_offset],  // display offset
            vec![0x40 | (config.start_line & 0x3F)],  // start line
            vec![0x8D, if config.charge_pump_enabled { 0x14 } else { 0x10 }],  // charge pump
            vec![0xAD, 0x8A],  // SSD1309 DC-DC converter (the panel shows garbage without it)
        ];
        proof {
            assert(Seq::new(head@.len(), |i: int| head@[i]@) =~~= init_commands_head(*config));
        }
        let r = dev.send_commands(&head);
        if r.is_err() {
            proof {
                lemma_ran_failed(
                    start,
                    dev.log(),
                    commands(init_commands_head(*config)),
                    seq![BusOp::Delay(DC_DC_SETTLE_MS)] + commands(init_commands_tail(*config)),
                );
                assert(commands(init_commands_head(*config)) + (seq![BusOp::Delay(DC_DC_SETTLE_MS)]
                    + commands(init_commands_tail(*config))) =~= init_ops(*config));
            }
            return (Err(r.unwrap_err()), Ghost(dev.log()));
        }
        let ghost log1 = dev.log();
        dev.pause(DC_DC_SETTLE_MS);
        let mut tail: Vec<Vec<u8>> = vec![vec![0x20, 0x02]];  // page addressing mode
        match config.rotation {
            DisplayRotation::Rotate0 => {
                tail.push(vec![0xA1]);  // segment remap (horizontal flip)
                tail.push(vec![0xC8]);  // COM scan direction (vertical flip)
            },
            DisplayRotation::Rotate180 => {
                tail.push(vec![0xA0]);  // segment remap off
                tail.push(vec![0xC0]);  // COM scan direction normal
            },
        }
        tail.push(vec![0xDA, config.com_pins_config]);  // COM pins configuration
        tail.push(vec![0x81, config.contrast]);  // contrast
        let precharge = ((config.precharge_phase2 & 0x0F) << 4) | (config.precharge_phase1 & 0x0F);
        tail.push(vec![0xD9, precharge]);  // pre-charge period
        tail.push(vec![0xDB, config.vcomh_level]);  // VCOMH deselect level
        tail.push(vec![0xA4]);  // display follows RAM (not entirely on)
        tail.push(vec![if config.inverted { 0xA7 } else { 0xA6 }]);  // inverse / normal
        if config.display_on {
            tail.push(vec![0xAF]);  // display on
        }
        proof {
            assert(Seq::new(tail@.len(), |i: int| tail@[i]@) =~~= init_commands_tail(*config));
        }
        let ghost log2 = dev.log();
        let r = dev.send_commands(&tail);
        proof {
            lemma_ran_one(log1, BusEvent { op: BusOp::Delay(DC_DC_SETTLE_MS), ok: true });
            lemma_ran_then(
                start,
                log1,
                log2,
                commands(init_commands_head(*config)),
                seq![BusOp::Delay(DC_DC_SETTLE_MS)],
                true,
            );
            lemma_ran_then(
                start,
                log2,
                dev.log(),
                commands(init_commands_head(*config)) + seq![BusOp::Delay(DC_DC_SETTLE_MS)],
                commands(init_commands_tail(*config)),
                r is Ok,
            );
        }
        if r.is_err() {
            return (Err(r.unwrap_err()), Ghost(dev.log()));
        }
        let ghost log = dev.log();
        (Ok(dev), Ghost(log))
    }

    /// Sends one command, as a run of a single operation.
    fn send_one(&mut self, bytes: &[u8]) -> (r: Result<(), std::io::Error>)
        ensures
            ran(old(self).log(), final(self).log(), seq![command(bytes@)], r is Ok),
    {
        let r = self.send_command(bytes);
        proof {
            lemma_ran_one(old(self).log(), BusEvent { op: command(bytes@), ok: r is Ok });
        }
        r
    }

    /// Sends page address, column address and the data of columns `[x, x + w)` of `page`.
    fn send_page(&mut self, data: &[u8], page: usize, x: usize, w: usize) -> (r: Result<
        (),
        std::io::Error,
    >)
        requires
            data@.len() == BUFFER_LEN,
            page < 8,
            x + w <= 128,
        ensures
            ran(old(self).log(), final(self).log(), page_ops(data@, page as int, x as int, w as int), r is Ok),
    {
        let ghost l0 = self.log();
        let ghost ops = page_ops(data@, page as int, x as int, w as int);
        proof {
            lemma_ran_empty(l0);
        }
        let c1 = [0xB0u8 | page as u8];
        proof {
            assert(c1@ =~= seq![0xB0u8 | (page as u8)]);
        }
        let r = self.send_command(&c1);
        proof {
            lemma_ran_push(l0, l0, Seq::empty(), BusEvent { op: command(c1@), ok: r is Ok });
            assert(Seq::<BusOp>::empty().push(command(c1@)) =~= ops.take(1));
        }
        if r.is_err() {
            proof {
                lemma_ran_failed(l0, self.log(), ops.take(1), ops.skip(1));
                assert(ops.take(1) + ops.skip(1) =~= ops);
            }
            return r;
        }
        let ghost l1 = self.log();
        let col_low = x as u8 & 0x0F;
        let col_high = 0x10 | ((x as u8 >> 4) & 0x07);
        let c2 = [col_low, col_high];
        proof {
            assert(c2@ =~= seq![(x as u8) & 0x0F, 0x10u8 | (((x as u8) >> 4u8) & 0x07)]);
        }
        let r = self.send_command(&c2);
        proof {
            lemma_ran_push(l0, l1, ops.take(1), BusEvent { op: command(c2@), ok: r is Ok });
            assert(ops.take(1).push(command(c2@)) =~= ops.take(2));
        }
        if r.is_err() {
            proof {
                lemma_ran_failed(l0, self.log(), ops.take(2), ops.skip(2));
                assert(ops.take(2) + ops.skip(2) =~= ops);
            }
            return r;
        }
        let ghost l2 = self.log();
        let start = page * 128 + x;
        let block = &data[start..start + w];
        let r = self.send_data(block);
        proof {
            lemma_ran_push(l0, l2, ops.take(2), BusEvent { op: BusOp::Data(block@), ok: r is Ok });
            assert(ops.take(2).push(BusOp::Data(block@)) =~= ops);
        }
        r
    }

    /// Pushes the whole 1024-byte frame, page by page (8 pages × 128 bytes).
    pub fn push_frame(&mut self, fb: &Framebuffer) -> (r: Result<(), std::io::Error>)
        ensures
            ran(old(self).log(), final(self).log(), frame_ops(fb.bytes()), r is Ok),
    {
        let data = fb.as_bytes().as_slice();
        proof {
            fb.lemma_wf();
            lemma_ran_empty(self.log());
        }
        let mut page: usize = 0;
        while page < 8
            invariant
                page <= 8,
                data@ == fb.bytes(),
                data@.len() == BUFFER_LEN,
                ran(old(self).log(), self.log(), pages_ops(data@, 0, page - 1, 0, 128), true),
            decreases 8 - page,
        {
            let ghost before = self.log();
            let r = self.send_page(data, page, 0, 128);
            proof {
                lemma_ran_then(
                    old(self).log(),
                    before,
                    self.log(),
                    pages_ops(data@, 0, page - 1, 0, 128),
                    page_ops(data@, page as int, 0, 128),
                    r is Ok,
                );
            }
            if r.is_err() {
                proof {
                    lemma_pages_ops_split(data@, 0, page as int, 7, 0, 128);
                    lemma_ran_failed(
                        old(self).log(),
                        self.log(),
                        pages_ops(data@, 0, page as int, 0, 128),
                        pages_ops(data@, page + 1, 7, 0, 128),
                    );
                }
                return r;
            }
            page = page + 1;
        }
        Ok(())
    }

    /// Pushes region `(x, y, w, h)` only: for each page the rows touch, sets the
    /// page and column address and writes the region's width of bytes. The
    /// region is clipped to the screen; an empty region sends nothing.
    pub fn render_region(&mut self, fb: &Framebuffer, x: usize, y: usize, w: usize, h: usize) -> (r:
        Result<(), std::io::Error>)
        ensures
            ran(
                old(self).log(),
                final(self).log(),
                region_ops(fb.bytes(), x as int, y as int, w as int, h as int),
                r is Ok,
            ),
    {
        proof {
            lemma_ran_empty(self.log());
            fb.lemma_wf();
        }
        let ghost requested = region_ops(fb.bytes(), x as int, y as int, w as int, h as int);
        let cx = if x <= 128 { x } else { 128 };
        let cw = if w <= 128 - cx { w } else { 128 - cx };
        if cw == 0 {
            return Ok(());
        }
        let y0 = if y <= 64 { y } else { 64 };
        let ye = y.saturating_add(h);
        let y1 = if ye <= 64 { ye } else { 64 };
        if y0 >= y1 {
            return Ok(());
        }
        let page0 = y0 / 8;
        let page1 = (y1 - 1) / 8;
        let data = fb.as_bytes().as_slice();
        let ghost all = pages_ops(data@, page0 as int, page1 as int, cx as int, cw as int);
        assert(all == requested);
        let mut page: usize = page0;
        while page <= page1
            invariant
                page0 <= page <= page1 + 1,
                page1 < 8,
                cx + cw <= 128,
                data@ == fb.bytes(),
                data@.len() == BUFFER_LEN,
                all == pages_ops(data@, page0 as int, page1 as int, cx as int, cw as int),
                all == requested,
                requested == region_ops(fb.bytes(), x as int, y as int, w as int, h as int),
                ran(old(self).log(), self.log(), pages_ops(data@, page0 as int, page - 1, cx as int, cw as int), true),
            decreases page1 + 1 - page,
        {
            let ghost before = self.log();
            let r = self.send_page(data, page, cx, cw);
            proof {
                lemma_ran_then(
                    old(self).log(),
                    before,
                    self.log(),
                    pages_ops(data@, page0 as int, page - 1, cx as int, cw as int),
                    page_ops(data@, page as int, cx as int, cw as int),
                    r is Ok,
                );
            }
            if r.is_err() {
                proof {
                    lemma_pages_ops_split(data@, page0 as int, page as int, page1 as int, cx as int, cw as int);
                    lemma_ran_failed(
                        old(self).log(),
                        self.log(),
                        pages_ops(data@, page0 as int, page as int, cx as int, cw as int),
                        pages_ops(data@, page + 1, page1 as int, cx as int, cw as int),
                    );
                }
                return r;
            }
            page = page + 1;
        }
        Ok(())
    }

    /// Sets the contrast (0-255; the controller's default is 0xCF).
    pub fn set_contrast(&mut self, val: u8) -> (r: Result<(), std::io::Error>)
        ensures
            ran(old(self).log(), final(self).log(), seq![command(seq![0x81u8, val])], r is Ok),
    {
        let c = [0x81u8, val];
        proof {
            assert(c@ =~= seq![0x81u8, val]);
        }
        self.send_one(&c)
    }

    /// Inverse display (0xA7) or normal display (0xA6).
    pub fn set_inverted(&mut self, inverted: bool) -> (r: Result<(), std::io::Error>)
        ensures
            ran(
                old(self).log(),
                final(self).log(),
                seq![command(seq![if inverted { 0xA7u8 } else { 0xA6u8 }])],
                r is Ok,
            ),
    {
        let c = [if inverted { 0xA7u8 } else { 0xA6u8 }];
        proof {
            assert(c@ =~= seq![if inverted { 0xA7u8 } else { 0xA6u8 }]);
        }
        self.send_one(&c)
    }

    /// Lights every pixel (0xA5) or shows the GDDRAM content again (0xA4);
    /// a quick panel test.
    pub fn set_entire_display_on(&mut self, on: bool) -> (r: Result<(), std::io::Error>)
        ensures
            ran(
                old(self).log(),
                final(self).log(),
                seq![command(seq![if on { 0xA5u8 } else { 0xA4u8 }])],
                r is Ok,
            ),
    {
        let c = [if on { 0xA5u8 } else { 0xA4u8 }];
        proof {
            assert(c@ =~= seq![if on { 0xA5u8 } else { 0xA4u8 }]);
        }
        self.send_one(&c)
    }

    /// Switches the display off (sleep mode, 0xAE); the GDDRAM content is kept.
    pub fn sleep(&mut self) -> (r: Result<(), std::io::Error>)
        ensures
            ran(old(self).log(), final(self).log(), seq![command(seq![0xAEu8])], r is Ok),
    {
        let c = [0xAEu8];
        proof {
            assert(c@ =~= seq![0xAEu8]);
        }
        self.send_one(&c)
    }

    /// Switches the display on (0xAF); the counterpart of [`sleep`](Self::sleep).
    pub fn wake(&mut self) -> (r: Result<(), std::io::Error>)
        ensures
            ran(old(self).log(), final(self).log(), seq![command(seq![0xAFu8])], r is Ok),
    {
        let c = [0xAFu8];
        proof {
            assert(c@ =~= seq![0xAFu8]);
        }
        self.send_one(&c)
    }

    /// Sets the orientation: segment remap and COM scan direction only; the
    /// framebuffer is not cleared.
    pub fn set_rotation(&mut self, rotation: DisplayRotation) -> (r: Result<(), std::io::Error>)
        ensures
            ran(old(self).log(), final(self).log(), commands(rotation_commands(rotation)), r is Ok),
    {
        let cmds: Vec<Vec<u8>> = match rotation {
            DisplayRotation::Rotate0 => vec![vec![0xA1], vec![0xC8]],
            DisplayRotation::Rotate180 => vec![vec![0xA0], vec![0xC0]],
        };
        proof {
            assert(Seq::new(cmds@.len(), |i: int| cmds@[i]@) =~~= rotation_commands(rotation));
        }
        self.send_commands(&cmds)
    }

    /// Sets the display offset (0-63).
    pub fn set_display_offset(&mut self, offset: u8) -> (r: Result<(), std::io::Error>)
        ensures
            ran(old(self).log(), final(self).log(), seq![command(seq![0xD3u8, offset & 0x3F])], r is Ok),
    {
        let c = [0xD3u8, offset & 0x3F];
        proof {
            assert(c@ =~= seq![0xD3u8, offset & 0x3F]);
        }
        self.send_one(&c)
    }

    /// Sets the display start line (0-63).
    pub fn set_start_line(&mut self, line: u8) -> (r: Result<(), std::io::Error>)
        ensures
            ran(old(self).log(), final(self).log(), seq![command(seq![0x40u8 | (line & 0x3F)])], r is Ok),
    {
        let c = [0x40u8 | (line & 0x3F)];
        proof {
            assert(c@ =~= seq![0x40u8 | (line & 0x3F)]);
        }
        self.send_one(&c)
    }

    /// Sets the multiplex ratio (rows - 1; 0x3F for a 128×64 panel).
    pub fn set_multiplex_ratio(&mut self, ratio: u8) -> (r: Result<(), std::io::Error>)
        ensures
            ran(old(self).log(), final(self).log(), seq![command(seq![0xA8u8, ratio])], r is Ok),
    {
        let c = [0xA8u8, ratio];
        proof {
            assert(c@ =~= seq![0xA8u8, ratio]);
        }
        self.send_one(&c)
    }

    /// Sets the clock divide ratio and oscillator frequency.
    pub fn set_clock(&mut self, divide_ratio: u8, frequency: u8) -> (r: Result<(), std::io::Error>)
        ensures
            ran(
                old(self).log(),
                final(self).log(),
                seq![command(seq![0xD5u8, nibbles(frequency, divide_ratio)])],
                r is Ok,
            ),
    {
        let value = ((frequency & 0x0F) << 4) | (divide_ratio & 0x0F);
        let c = [0xD5u8, value];
        proof {
            assert(c@ =~= seq![0xD5u8, nibbles(frequency, divide_ratio)]);
        }
        self.send_one(&c)
    }

    /// Sets the pre-charge period.
    pub fn set_precharge_period(&mut self, phase1: u8, phase2: u8) -> (r: Result<(), std::io::Error>)
        ensures
            ran(
                old(self).log(),
                final(self).log(),
                seq![command(seq![0xD9u8, nibbles(phase2, phase1)])],
                r is Ok,
            ),
    {
        let value = ((phase2 & 0x0F) << 4) | (phase1 & 0x0F);
        let c = [0xD9u8, value];
        proof {
            assert(c@ =~= seq![0xD9u8, nibbles(phase2, phase1)]);
        }
        self.send_one(&c)
    }

    /// Sets the VCOMH deselect level.
    pub fn set_vcomh_level(&mut self, level: u8) -> (r: Result<(), std::io::Error>)
        ensures
            ran(old(self).log(), final(self).log(), seq![command(seq![0xDBu8, level])], r is Ok),
    {
        let c = [0xDBu8, level];
        proof {
            assert(c@ =~= seq![0xDBu8, level]);
        }
        self.send_one(&c)
    }

    /// Sets the COM pins hardware configuration.
    pub fn set_com_pins_config(&mut self, config: u8) -> (r: Result<(), std::io::Error>)
        ensures
            ran(old(self).log(), final(self).log(), seq![command(seq![0xDAu8, config])], r is Ok),
    {
        let c = [0xDAu8, config];
        proof {
            assert(c@ =~= seq![0xDAu8, config]);
        }
        self.send_one(&c)
    }

    /// Enables or disables the charge pump.
    pub fn set_charge_pump(&mut self, enabled: bool) -> (r: Result<(), std::io::Error>)
        ensures
            ran(
                old(self).log(),
                final(self).log(),
                seq![command(seq![0x8Du8, if enabled { 0x14u8 } else { 0x10u8 }])],
                r is Ok,
            ),
    {
        let c = [0x8Du8, if enabled { 0x14u8 } else { 0x10u8 }];
        proof {
            assert(c@ =~= seq![0x8Du8, if enabled { 0x14u8 } else { 0x10u8 }]);
        }
        self.send_one(&c)
    }

    /// Sets up and starts horizontal hardware scrolling.
    ///
    /// The panel this driver was written for ignores hardware scrolling; the
    /// command is kept for other SSD1309 panels and compatibility tests.
    pub fn hardware_scroll_horizontal(
        &mut self,
        dir: ScrollDirection,
        start_page: u8,
        end_page: u8,
        speed: u8,
    ) -> (r: Result<(), std::io::Error>)
        ensures
            ran(
                old(self).log(),
                final(self).log(),
                hardware_scroll_ops(dir, start_page, end_page, speed),
                r is Ok,
            ),
    {
        let code = match dir {
            ScrollDirection::Right => 0x26u8,
            ScrollDirection::Left => 0x27u8,
        };
        let cmds: Vec<Vec<u8>> = vec![
            vec![code, 0x00, start_page & 0x07, speed, end_page & 0x07, 0x00, 0xFF],
            vec![0x2F],
        ];
        proof {
            let spec_cmds = seq![
                seq![code, 0x00u8, start_page & 0x07, speed, end_page & 0x07, 0x00u8, 0xFFu8],
                seq![0x2Fu8],
            ];
            assert(Seq::new(cmds@.len(), |i: int| cmds@[i]@) =~~= spec_cmds);
            assert(commands(spec_cmds) =~= hardware_scroll_ops(dir, start_page, end_page, speed));
        }
        self.send_commands(&cmds)
    }

    /// Stops hardware scrolling.
    pub fn deactivate_scroll(&mut self) -> (r: Result<(), std::io::Error>)
        ensures
            ran(old(self).log(), final(self).log(), seq![command(seq![0x2Eu8])], r is Ok),
    {
        let c = [0x2Eu8];
        proof {
            assert(c@ =~= seq![0x2Eu8]);
        }
        self.send_one(&c)
    }

    /// Reads the status register (bit 7 = busy, bit 0 = charge pump on), to tell
    /// a bus fault from a panel that does not respond.
    pub fn read_status(&mut self) -> (r: Result<u8, std::io::Error>)
        ensures
            final(self).log() == old(self).log().push(BusEvent { op: BusOp::StatusRead, ok: r is Ok }),
    {
        self.read_byte()
    }

    /// Calls [`I2cDevice::read`] on the device. Trusted: the log records
    /// exactly this status read, successful exactly when the device reports
    /// success. Nothing is stated of the byte read.
    #[verifier::external_body]
    fn read_byte(&mut self) -> (r: Result<u8, std::io::Error>)
        ensures
            final(self).log() == old(self).log().push(BusEvent { op: BusOp::StatusRead, ok: r is Ok }),
    {
        self.bus.read()
    }
}

} // verus!
