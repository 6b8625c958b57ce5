//! Block devices: requests, device states and the registry of devices.
use vstd::prelude::*;
use crate::rklock::semaphore::Semaphore;
use crate::rkalloc::RKalloc;

verus! {

/// A sector number.
pub type Sector = usize;

/// Upper bound on the queues of a device.
pub const CONFIG_LIBUKBLKDEV_MAXNBQUEUES: u16 = 1;

/// What a request asks for.
#[derive(Clone, Copy, PartialEq, Eq, Structural)]
pub enum RkBlkreqOp {
    RkBlkreqRead,
    RkBlkreqWrite,
    RkBlkreqFflush,
}

/// The state of a finished request.
pub const RkBlkreqFinished: bool = true;
/// The state of a request in flight.
pub const RkBlkreqUnfinished: bool = false;

/// A request to a block device.
pub struct RkBlkreq {
    pub operation: RkBlkreqOp,
    pub start_sector: Sector,
    pub nb_sectors: Sector,
    /// Address of the data buffer.
    pub aio_buf: u64,
    /// `RkBlkreqFinished` or `RkBlkreqUnfinished`.
    pub state: bool,
    pub result: isize,
}

/// Fills in a request; it starts out finished.
pub fn rk_blkreq_init(req: &mut RkBlkreq, op: RkBlkreqOp, start: Sector, nb_sectors: Sector, aio_buf: u64)
    ensures
        final(req).operation == op,
        final(req).start_sector == start,
        final(req).nb_sectors == nb_sectors,
        final(req).aio_buf == aio_buf,
        final(req).state == RkBlkreqFinished,
        final(req).result == old(req).result,
{
    req.operation = op;
    req.start_sector = start;
    req.nb_sectors = nb_sectors;
    req.aio_buf = aio_buf;
    req.state = RkBlkreqFinished;
}

/// The request is finished.
pub fn rk_blkreg_is_done(req: &RkBlkreq) -> (b: bool)
    ensures
        b == (req.state == RkBlkreqFinished),
{
    req.state == RkBlkreqFinished
}

/// Marks the request finished.
pub fn rk_blkdev_finished(req: &mut RkBlkreq)
    ensures
        final(req).state == RkBlkreqFinished,
        final(req).operation == old(req).operation,
        final(req).start_sector == old(req).start_sector,
        final(req).nb_sectors == old(req).nb_sectors,
        final(req).aio_buf == old(req).aio_buf,
        final(req).result == old(req).result,
{
    req.state = RkBlkreqFinished;
}

/// `ptr` is null or an error number below 512, negated.
pub fn ptriseer(ptr: i64) -> (b: bool)
    ensures
        b == (-512 <= ptr <= 0),
{
    if ptr <= 0 && ptr >= -512 {
        true
    } else {
        false
    }
}

/// A request that its issuer waits for.
pub struct RkBlkdevSyncIORequest {
    pub req: RkBlkreq,
    pub s: Semaphore,
}

/// The state of a block device.
#[derive(Clone, Copy, PartialEq, Eq, Structural)]
pub enum RkBlkdevState {
    RkBlkdevInvalid,
    RkBlkdevUnconfigured,
    RkBlkdevConfigured,
    RkBlkdevRunning,
}

/// How a device is configured.
pub struct RkBlkdevConf {
    pub nb_queues: u16,
}

/// What a device reports about itself.
pub struct RkBlkdevInfo {
    pub max_queues: u16,
}

/// What a queue allows.
pub struct RkBlkdevQueueInfo {
    pub nb_max: u16,
    pub nb_min: u16,
    pub nb_align: u16,
    pub nb_is_power_of_two: isize,
}

/// A queue of requests and responses; its content is the driver's.
pub struct RkBlkdevQueue {}

/// The capacity of a device.
pub struct RkBlkdevCap {
    pub sectors: Sector,
    pub ssize: usize,
    pub mode: isize,
    pub max_sectors_per_req: Sector,
    pub ioalign: u16,
}

/// The operations that a driver provides.
pub trait RkBlkdevOps {
    /// The number of queues the device reports.
    spec fn reported_max_queues(&self) -> u16;

    /// `r` is an answer the driver may give to a request to configure the
    /// device as `conf` says.
    spec fn answers(&self, conf: RkBlkdevConf, r: isize) -> bool;

    /// Fills in what the device reports about itself.
    fn get_info(&self, dev_info: &mut RkBlkdevInfo)
        ensures
            final(dev_info).max_queues == self.reported_max_queues(),
    ;

    /// Configures the device; 0 on success.
    fn dev_configure(&self, conf: &RkBlkdevConf) -> (r: isize)
        ensures
            self.answers(*conf, r),
    ;

    fn dev_start(&self) -> isize;
    fn dev_stop(&self) -> isize;
    fn dev_unconfigure(&self) -> isize;
}

/// What the device layer keeps about a device.
pub struct RkBlkdevData {
    pub id: u16,
    pub state: RkBlkdevState,
    pub drv_name: String,
}

/// A block device.
pub struct RkBlkdev {
    pub data: RkBlkdevData,
    /// Where the allocator placed the device layer's private data; 0
    /// before registration.
    pub data_addr: u64,
    pub capabilities: RkBlkdevCap,
}

/// The identifier of the device.
pub fn rk_blkdev_id_get(dev: &RkBlkdev) -> (id: u16)
    ensures
        id == dev.data.id,
{
    dev.data.id
}

/// The state of the device.
pub fn rk_blkdev_state_get(dev: &RkBlkdev) -> (s: RkBlkdevState)
    ensures
        s == dev.data.state,
{
    dev.data.state
}

/// The queues the device layer allows for a device that reports
/// `reported` queues: as many, but at most 16.
pub open spec fn queue_limit(reported: u16) -> u16 {
    if reported < 16 {
        reported
    } else {
        16
    }
}

/// What the device reports, with at most 16 queues: the report starts out
/// all zero and the driver is asked to fill it in.  Gives 0.
pub fn rk_blkdev_get_info<O: RkBlkdevOps>(ops: &O, dev: &RkBlkdev) -> (r: (isize, RkBlkdevInfo))
    ensures
        r.0 == 0,
        r.1.max_queues == queue_limit(ops.reported_max_queues()),
{
    let mut dev_info = RkBlkdevInfo { max_queues: 0 };
    ops.get_info(&mut dev_info);
    dev_info.max_queues = if dev_info.max_queues < 16 { dev_info.max_queues } else { 16 };
    (0, dev_info)
}

/// Configures the device: fails with -12, without asking the driver, when
/// it asks for more queues than the device layer allows for what the device
/// reports; else hands `conf` to the driver and gives its answer.  0 is
/// success, and the device is then configured.  On any other result the
/// device keeps its state.
pub fn rk_blkdev_configure<O: RkBlkdevOps>(ops: &O, dev: &mut RkBlkdev, conf: &RkBlkdevConf) -> (rc: isize)
    ensures
        final(dev).data.id == old(dev).data.id,
        final(dev).data.drv_name == old(dev).data.drv_name,
        final(dev).capabilities == old(dev).capabilities,
        conf.nb_queues > queue_limit(ops.reported_max_queues()) ==> rc == -12 && final(dev).data.state == old(dev).data.state,
        conf.nb_queues <= queue_limit(ops.reported_max_queues()) ==> {
            &&& ops.answers(*conf, rc)
            &&& rc == 0 ==> final(dev).data.state == RkBlkdevState::RkBlkdevConfigured
            &&& rc != 0 ==> final(dev).data.state == old(dev).data.state
        },
{
    let (rc0, dev_info) = rk_blkdev_get_info(ops, dev);
    if rc0 != 0 {
        return rc0;
    }
    if conf.nb_queues > dev_info.max_queues {
        return -12;
    }
    let rc = ops.dev_configure(conf);
    if rc == 0 {
        dev.data.state = RkBlkdevState::RkBlkdevConfigured;
    }
    rc
}

/// The registered devices, in the order of registration, and their count
/// (none before the first registration).
pub struct BlkdevRegistry {
    pub list: Vec<RkBlkdev>,
    pub count: Option<i16>,
}

/// The number of registered devices.
pub fn rk_blkdev_count(reg: &BlkdevRegistry) -> (n: i16)
    ensures
        n == match reg.count {
            None => 0i16,
            Some(x) => x,
        },
{
    match reg.count {
        None => 0,
        Some(x) => x,
    }
}

/// The first registered device whose identifier is `id`, by its place in
/// the registry.
pub fn rk_blkdev_get(reg: &BlkdevRegistry, id: u16) -> (r: Option<usize>)
    ensures
        r matches Some(i) ==> i < reg.list@.len() && reg.list@[i as int].data.id == id
            && forall|k: int| 0 <= k < i ==> reg.list@[k].data.id != id,
        r is None ==> forall|k: int| 0 <= k < reg.list@.len() ==> reg.list@[k].data.id != id,
{
    let mut i: usize = 0;
    while i < reg.list.len()
        invariant
            i <= reg.list@.len(),
            forall|k: int| 0 <= k < i ==> reg.list@[k].data.id != id,
        decreases reg.list@.len() - i,
    {
        if reg.list[i].data.id == id {
            return Some(i);
        }
        i = i + 1;
    }
    None
}

impl BlkdevRegistry {
    /// The count agrees with the list: none before the first registration,
    /// else the number of devices listed.
    pub open spec fn wf(&self) -> bool {
        match self.count {
            None => self.list@.len() == 0,
            Some(c) => c >= 0 && self.list@.len() == c,
        }
    }

    /// The number of devices listed, as the count says.
    pub open spec fn n(&self) -> int {
        match self.count {
            None => 0,
            Some(c) => c as int,
        }
    }
}

/// Adds `dev` to the registry as the next device, with its private data in
/// a block of `a`: its identifier is the number of devices registered
/// before it, its driver is `drv_name` and it starts unconfigured.  Gives
/// that identifier, or -12 (out of memory), with the registry unchanged,
/// when `a` has no block for the private data.
pub fn rk_blkdev_drv_register<A: RKalloc>(reg: &mut BlkdevRegistry, dev: RkBlkdev, a: &mut A, drv_name: String) -> (id: i16)
    requires
        old(reg).wf(),
        old(reg).n() < i16::MAX,
        old(a).inv(),
        old(a).serves(core::mem::align_of::<RkBlkdevData>()),
    ensures
        final(reg).wf(),
        final(a).inv(),
        forall|q: u64, s: usize, al: usize| #[trigger] old(a).holds(q, s, al) ==> final(a).holds(q, s, al),
        ({
            let p = old(a).next_block(core::mem::size_of::<RkBlkdevData>(), core::mem::align_of::<RkBlkdevData>());
            &&& p == 0 ==> id == -12 && *final(reg) == *old(reg)
            &&& p != 0 ==> {
                &&& final(a).holds(p, core::mem::size_of::<RkBlkdevData>(), core::mem::align_of::<RkBlkdevData>())
                &&& id == old(reg).n()
                &&& final(reg).n() == old(reg).n() + 1
                &&& final(reg).list@.len() == old(reg).list@.len() + 1
                &&& forall|i: int| 0 <= i < old(reg).list@.len() ==> #[trigger] final(reg).list@[i] == old(reg).list@[i]
                &&& ({
                    let d = final(reg).list@.last();
                    &&& d.data.id == id
                    &&& d.data.state == RkBlkdevState::RkBlkdevUnconfigured
                    &&& d.data.drv_name == drv_name
                    &&& d.data_addr == p
                    &&& d.capabilities == dev.capabilities
                })
            }
        }),
{
    let addr = a.allocate(core::mem::size_of::<RkBlkdevData>(), core::mem::align_of::<RkBlkdevData>());
    if addr == 0 {
        return -12;
    }
    let id: i16 = match reg.count {
        None => 0,
        Some(c) => c,
    };
    let mut dev = dev;
    dev.data_addr = addr;
    dev.data = RkBlkdevData { id: id as u16, state: RkBlkdevState::RkBlkdevUnconfigured, drv_name };
    reg.list.push(dev);
    reg.count = Some(id + 1);
    id
}

/// Takes the device at place `index` out of the registry; it must be
/// unconfigured.
pub fn rk_blkdev_drv_unregister(reg: &mut BlkdevRegistry, index: usize)
    requires
        old(reg).wf(),
        index < old(reg).list@.len(),
        old(reg).list@[index as int].data.state == RkBlkdevState::RkBlkdevUnconfigured,
    ensures
        final(reg).wf(),
        final(reg).n() == old(reg).n() - 1,
        final(reg).list@ == old(reg).list@.remove(index as int),
{
    reg.list.remove(index);
    let c = match reg.count {
        None => 0,
        Some(c) => c,
    };
    reg.count = Some(c - 1);
}

/// Taking out the device just registered gives back the registry as it
/// was: the same devices and the same count.
pub proof fn lemma_register_unregister(r0: &BlkdevRegistry, r1: &BlkdevRegistry, r2: &BlkdevRegistry)
    requires
        r0.wf(),
        r1.list@.len() == r0.list@.len() + 1,
        forall|i: int| 0 <= i < r0.list@.len() ==> #[trigger] r1.list@[i] == r0.list@[i],
        r1.n() == r0.n() + 1,
        r2.n() == r1.n() - 1,
        r2.list@ == r1.list@.remove(r1.list@.len() - 1),
    ensures
        r2.list@ == r0.list@,
        r2.n() == r0.n(),
{
    assert(r2.list@ =~= r0.list@);
}

/// Status flag of a submitted request: it was queued.
pub const RK_BLKDEV_STATUS_SUCCESS: isize = 0x1;
/// Status flag of a submitted request: the queue has room for more.
pub const RK_BLKDEV_STATUS_MORE: isize = 0x2;

/// The status holds every flag of `flag` and is no error code.
pub fn rk_blkdev_status_test_set(status: isize, flag: isize) -> (b: bool)
    ensures
        b == (status >= 0 && status & flag == flag),
{
    status >= 0 && (status & flag) == flag
}

/// The status holds no flag of `flag` and is no error code.
pub fn rk_blkdev_status_test_unset(status: isize, flag: isize) -> (b: bool)
    ensures
        b == (status >= 0 && status & flag == 0),
{
    status >= 0 && (status & flag) == 0
}

/// The status tells a successful operation.
pub fn rk_blkdev_status_successful(status: isize) -> (b: bool)
    ensures
        b == (status >= 0 && status & RK_BLKDEV_STATUS_SUCCESS == RK_BLKDEV_STATUS_SUCCESS),
{
    rk_blkdev_status_test_set(status, RK_BLKDEV_STATUS_SUCCESS)
}

/// The status tells that the queue has room for more requests.
pub fn rk_blkdev_status_more(status: isize) -> (b: bool)
    ensures
        b == (status >= 0 && status & RK_BLKDEV_STATUS_MORE == RK_BLKDEV_STATUS_MORE),
{
    rk_blkdev_status_test_set(status, RK_BLKDEV_STATUS_MORE)
}

/// What the user of a device does with the events of one of its queues.
pub trait RkBlkdevQueueEventHandler {
    /// Handling an event of queue `queue_id` may take the device from
    /// `before` to `after`.
    spec fn handles(&self, before: RkBlkdev, queue_id: u16, after: RkBlkdev) -> bool;

    /// Handles an event of queue `queue_id` of `dev`.
    fn callback(&self, dev: &mut RkBlkdev, queue_id: u16)
        ensures
            self.handles(*old(dev), queue_id, *final(dev)),
    ;
}

/// Passes an event of queue `queue_id` of `dev` on to the handler that the
/// user configured for that queue, `handlers[queue_id]`.
pub fn rk_blkdev_drv_queue_event<H: RkBlkdevQueueEventHandler>(handlers: &[H], dev: &mut RkBlkdev, queue_id: u16)
    requires
        queue_id < CONFIG_LIBUKBLKDEV_MAXNBQUEUES,
        queue_id < handlers@.len(),
    ensures
        handlers@[queue_id as int].handles(*old(dev), queue_id, *final(dev)),
{
    handlers[queue_id as usize].callback(dev, queue_id);
}

} // verus!
