use runikraft::buddy::AllocBuddy;
use runikraft::rkalloc::RKalloc;
use runikraft::align_as::{A16, A4096, A8};
use runikraft::bitcount::BitCount;
use runikraft::blkdev::{
    ptriseer, rk_blkdev_configure, rk_blkdev_drv_register, rk_blkdev_drv_unregister, rk_blkdev_count, rk_blkdev_finished, rk_blkdev_get, rk_blkdev_get_info,
    rk_blkdev_id_get, rk_blkdev_state_get, rk_blkreg_is_done, rk_blkreq_init, BlkdevRegistry, RkBlkdev,
    RkBlkdevCap, RkBlkdevConf, RkBlkdevData, RkBlkdevInfo, RkBlkdevOps, RkBlkdevState, RkBlkreq, RkBlkreqOp,
    RkBlkreqUnfinished, rk_blkdev_status_test_set, rk_blkdev_status_test_unset, rk_blkdev_status_successful,
    rk_blkdev_status_more, rk_blkdev_drv_queue_event, RkBlkdevQueueEventHandler, RK_BLKDEV_STATUS_MORE,
    RK_BLKDEV_STATUS_SUCCESS,
};
use runikraft::chain::Chain;
use runikraft::entry_list::{STailQ, TailQ, TailQEntry};
use runikraft::errno::Errno;
use runikraft::mbox::Mbox;
use runikraft::mpi;
use runikraft::rkalloc::RKallocEmpty;
use runikraft::rklock::mutex::Mutex;
use runikraft::rklock::semaphore::Semaphore;

#[test]
fn bits_are_counted() {
    assert_eq!(0u16.bitcount(), 0);
    assert_eq!(0xffffu16.bitcount(), 16);
    assert_eq!(0b1011u32.bitcount(), 3);
    assert_eq!(u32::MAX.bitcount(), 32);
    assert_eq!(0x8000_0000_0000_0001u64.bitcount(), 2);
    assert_eq!(u64::MAX.bitcount(), 64);
    assert_eq!(u128::MAX.bitcount(), 128);
    assert_eq!((1u128 << 100 | 7).bitcount(), 4);
}

#[test]
fn error_numbers() {
    assert_eq!(Errno::NoError.code(), 0);
    assert_eq!(Errno::Perm.code(), 1);
    assert_eq!(Errno::NoMem.code(), 12);
    assert_eq!(Errno::Inval.code(), 22);
    assert_eq!(Errno::Again.code(), 35);
    assert_eq!(Errno::NoBufS.code(), 55);
    assert_eq!(Errno::TimedOut.code(), 60);
}

#[test]
fn aligned_wrappers_keep_their_value() {
    assert_eq!(A8::new(5u8).data, 5);
    assert_eq!(A16::new([1u8, 2]).data, [1, 2]);
    assert_eq!(A4096::new("x").data, "x");
}

#[test]
fn the_semaphore_counts() {
    let mut s = Semaphore::new(1);
    assert!(!s.wait());
    assert_eq!(s.count(), 0);
    assert!(!s.try_wait());
    assert!(s.wait());
    assert_eq!(s.count(), -1);
    assert!(s.signal());
    assert!(!s.signal());
    assert_eq!(s.count(), 1);
    assert!(s.try_wait());
}

#[test]
fn the_mutex_is_taken_again_by_its_holder_only() {
    let mut m = Mutex::new();
    assert!(!m.is_locked());
    let g1 = m.try_lock(7).unwrap();
    assert!(m.is_locked());
    assert!(m.try_lock(8).is_none());
    let g2 = m.lock(7).unwrap();
    assert!(!m.unlock(g2));
    assert!(m.is_locked());
    assert!(m.unlock(g1));
    assert!(!m.is_locked());
    assert!(m.lock(8).is_some());
}

#[test]
fn the_mailbox_is_first_in_first_out() {
    let mut a = AllocBuddy::new(0x10_0000, 1 << 16);
    let mut m = Mbox::new(4, &mut a).unwrap();
    m.mbox_post(1);
    assert_eq!(m.mbox_post_try(2), 0);
    assert_eq!(m.mbox_post_to(3, 100), 0);
    assert_eq!(m.mbox_recv(), 1);
    assert_eq!(m.mbox_recv_try(), (0, 2));
    assert_eq!(m.mbox_recv_to(5), (0, 3));
    m.mbox_post(4);
    m.mbox_post(5);
    m.mbox_post(6);
    assert_eq!(m.mbox_recv(), 4);
    assert_eq!(m.mbox_recv(), 5);
    assert_eq!(m.mbox_recv(), 6);
}

#[test]
fn the_generic_mailbox_refuses_when_full_or_empty() {
    let mut a = AllocBuddy::new(0x10_0000, 1 << 16);
    let mut m: mpi::Mbox<String> = mpi::Mbox::new(2, &mut a).unwrap();
    assert_eq!(m.mbox_recv_try(), Err(Errno::NoBufS));
    assert_eq!(m.mbox_post_try(String::from("a")), Ok(()));
    m.mbox_post(String::from("b"));
    assert_eq!(m.mbox_post_try(String::from("c")), Err(Errno::NoBufS));
    assert_eq!(m.mbox_recv(), "a");
    assert_eq!(m.mbox_recv_try(), Ok(String::from("b")));
    assert_eq!(m.mbox_recv_try(), Err(Errno::NoBufS));
}

#[test]
fn the_bump_allocator_never_reuses() {
    let mut a = RKallocEmpty::new(1000, 100);
    assert_eq!(a.malloc(10), 1000);
    assert_eq!(a.calloc(3, 10), 1010);
    assert_eq!(a.memalign(64, 50), 1040);
    assert_eq!(a.realloc(1000, 99), 1000);
    a.free(1000);
    assert_eq!(a.malloc(20), 1090);
    assert_eq!(a.malloc(1), 0);
}

#[test]
fn the_chain_links_and_reuses_slots() {
    let mut c: Chain<i32> = Chain::new();
    let a = c.push_back(1).unwrap();
    let b = c.push_back(2).unwrap();
    let z = c.push_front(0).unwrap();
    assert_eq!(c.len(), 3);
    assert_eq!(c.head(), Some(z));
    assert_eq!(c.tail(), Some(b));
    assert_eq!(c.next_of(z), Some(a));
    assert_eq!(c.prev_of(b), Some(a));
    assert_eq!(c.remove(a), 1);
    assert_eq!(c.next_of(z), Some(b));
    let d = c.insert_after(z, 5).unwrap();
    assert_eq!(*c.get(d), 5);
    assert!(c.contains(&5));
    assert_eq!(c.pop_back(), Some(2));
    assert_eq!(c.pop_front(), Some(0));
    assert_eq!(c.pop_front(), Some(5));
    assert_eq!(c.pop_front(), None);
}

fn request() -> RkBlkreq {
    RkBlkreq {
        operation: RkBlkreqOp::RkBlkreqRead,
        start_sector: 0,
        nb_sectors: 0,
        aio_buf: 0,
        state: RkBlkreqUnfinished,
        result: 7,
    }
}

#[test]
fn block_requests_start_finished() {
    let mut r = request();
    assert!(!rk_blkreg_is_done(&r));
    rk_blkreq_init(&mut r, RkBlkreqOp::RkBlkreqWrite, 8, 2, 0x1000);
    assert!(rk_blkreg_is_done(&r));
    assert!(r.operation == RkBlkreqOp::RkBlkreqWrite);
    assert_eq!((r.start_sector, r.nb_sectors, r.aio_buf, r.result), (8, 2, 0x1000, 7));
    r.state = RkBlkreqUnfinished;
    rk_blkdev_finished(&mut r);
    assert!(rk_blkreg_is_done(&r));
}

#[test]
fn error_pointers() {
    assert!(ptriseer(0));
    assert!(ptriseer(-512));
    assert!(!ptriseer(-513));
    assert!(!ptriseer(4096));
}

struct Driver {
    rc: isize,
    queues: u16,
}

impl RkBlkdevOps for Driver {
    fn reported_max_queues(&self) -> u16 {
        self.queues
    }
    fn answers(&self, _conf: RkBlkdevConf, r: isize) -> bool {
        r == self.rc
    }
    fn get_info(&self, dev_info: &mut RkBlkdevInfo) {
        dev_info.max_queues = self.queues;
    }
    fn dev_configure(&self, _conf: &RkBlkdevConf) -> isize {
        self.rc
    }
    fn dev_start(&self) -> isize {
        0
    }
    fn dev_stop(&self) -> isize {
        0
    }
    fn dev_unconfigure(&self) -> isize {
        0
    }
}

fn device(id: u16) -> RkBlkdev {
    RkBlkdev {
        data: RkBlkdevData { id, state: RkBlkdevState::RkBlkdevUnconfigured, drv_name: String::from("virtio") },
        data_addr: 0,
        capabilities: RkBlkdevCap { sectors: 64, ssize: 512, mode: 0, max_sectors_per_req: 8, ioalign: 512 },
    }
}

#[test]
fn block_devices_are_configured_by_their_driver() {
    let mut dev = device(3);
    assert_eq!(rk_blkdev_id_get(&dev), 3);
    assert!(rk_blkdev_state_get(&dev) == RkBlkdevState::RkBlkdevUnconfigured);
    let (rc, info) = rk_blkdev_get_info(&Driver { rc: 0, queues: 0 }, &dev);
    assert_eq!((rc, info.max_queues), (0, 0));
    let (rc, info) = rk_blkdev_get_info(&Driver { rc: 0, queues: 3 }, &dev);
    assert_eq!((rc, info.max_queues), (0, 3));
    let (rc, info) = rk_blkdev_get_info(&Driver { rc: 0, queues: 40 }, &dev);
    assert_eq!((rc, info.max_queues), (0, 16));
    assert_eq!(rk_blkdev_configure(&Driver { rc: 1, queues: 0 }, &mut dev, &RkBlkdevConf { nb_queues: 1 }), -12);
    assert!(rk_blkdev_state_get(&dev) == RkBlkdevState::RkBlkdevUnconfigured);
    assert_eq!(rk_blkdev_configure(&Driver { rc: 0, queues: 40 }, &mut dev, &RkBlkdevConf { nb_queues: 17 }), -12);
    assert!(rk_blkdev_state_get(&dev) == RkBlkdevState::RkBlkdevUnconfigured);
    assert_eq!(rk_blkdev_configure(&Driver { rc: -5, queues: 2 }, &mut dev, &RkBlkdevConf { nb_queues: 2 }), -5);
    assert!(rk_blkdev_state_get(&dev) == RkBlkdevState::RkBlkdevUnconfigured);
    assert_eq!(rk_blkdev_configure(&Driver { rc: 0, queues: 1 }, &mut dev, &RkBlkdevConf { nb_queues: 1 }), 0);
    assert!(rk_blkdev_state_get(&dev) == RkBlkdevState::RkBlkdevConfigured);
}

#[test]
fn block_devices_are_found_by_identifier() {
    let mut reg = BlkdevRegistry { list: Vec::new(), count: None };
    assert_eq!(rk_blkdev_count(&reg), 0);
    reg.list.push(device(4));
    reg.list.push(device(9));
    reg.list.push(device(4));
    reg.count = Some(3);
    assert_eq!(rk_blkdev_count(&reg), 3);
    assert_eq!(rk_blkdev_get(&reg, 4), Some(0));
    assert_eq!(rk_blkdev_get(&reg, 9), Some(1));
    assert_eq!(rk_blkdev_get(&reg, 1), None);
}

#[test]
fn block_devices_register_in_order() {
    let mut reg = BlkdevRegistry { list: Vec::new(), count: None };
    let mut a = AllocBuddy::new(0x10_0000, 1 << 16);
    assert_eq!(rk_blkdev_drv_register(&mut reg, device(77), &mut a, String::from("a")), 0);
    assert_eq!(rk_blkdev_drv_register(&mut reg, device(77), &mut a, String::from("b")), 1);
    assert_ne!(reg.list[0].data_addr, 0);
    assert_ne!(reg.list[0].data_addr, reg.list[1].data_addr);
    assert_eq!(rk_blkdev_count(&reg), 2);
    assert_eq!(rk_blkdev_id_get(&reg.list[1]), 1);
    assert_eq!(reg.list[1].data.drv_name, "b");
    assert!(rk_blkdev_state_get(&reg.list[0]) == RkBlkdevState::RkBlkdevUnconfigured);
    assert_eq!(rk_blkdev_get(&reg, 1), Some(1));
    rk_blkdev_drv_unregister(&mut reg, 1);
    assert_eq!(rk_blkdev_count(&reg), 1);
    assert_eq!(rk_blkdev_get(&reg, 1), None);
    assert_eq!(rk_blkdev_get(&reg, 0), Some(0));
}

#[test]
fn queue_heads_report_their_first_node() {
    let mut q = STailQ::new();
    assert_eq!(q.get_head(), Err(-1));
    q.head = Some(4);
    q.length = 1;
    assert_eq!(q.get_head(), Ok(4));
    let mut t = TailQ::new();
    assert_eq!(t.get_head(), Err(-1));
    t.head = Some(0);
    assert_eq!(t.get_head(), Ok(0));
    let e = TailQEntry::new('x', None, Some(3));
    assert_eq!((e.entry, e.prev, e.next), ('x', None, Some(3)));
}

#[test]
fn request_status_flags() {
    assert!(rk_blkdev_status_successful(RK_BLKDEV_STATUS_SUCCESS | RK_BLKDEV_STATUS_MORE));
    assert!(rk_blkdev_status_more(3));
    assert!(!rk_blkdev_status_more(1));
    assert!(!rk_blkdev_status_successful(-5));
    assert!(rk_blkdev_status_test_set(3, 3));
    assert!(!rk_blkdev_status_test_set(1, 3));
    assert!(rk_blkdev_status_test_unset(1, 2));
    assert!(!rk_blkdev_status_test_unset(3, 2));
    assert!(!rk_blkdev_status_test_unset(-4, 1));
}

struct Renamer;

impl RkBlkdevQueueEventHandler for Renamer {
    fn handles(&self, _before: RkBlkdev, queue_id: u16, after: RkBlkdev) -> bool {
        after.data.drv_name == format!("event on queue {}", queue_id)
    }
    fn callback(&self, dev: &mut RkBlkdev, queue_id: u16) {
        dev.data.drv_name = format!("event on queue {}", queue_id);
    }
}

#[test]
fn queue_events_reach_their_handler() {
    let mut dev = device(1);
    rk_blkdev_drv_queue_event(&[Renamer], &mut dev, 0);
    assert_eq!(dev.data.drv_name, "event on queue 0");
}

#[test]
fn block_device_registration_fails_without_memory() {
    let mut reg = BlkdevRegistry { list: Vec::new(), count: None };
    let mut a = AllocBuddy::new(0x10_0000, 1 << 16);
    while a.allocate(16, 16) != 0 {}
    assert_eq!(rk_blkdev_drv_register(&mut reg, device(5), &mut a, String::from("c")), -12);
    assert_eq!(rk_blkdev_count(&reg), 0);
    assert!(reg.list.is_empty());
}

#[test]
fn the_generic_mailbox_needs_memory_for_its_slots() {
    let mut a = AllocBuddy::new(0x10_0000, 1 << 16);
    while a.allocate(16, 16) != 0 {}
    let m: Option<mpi::Mbox<u64>> = mpi::Mbox::new(4, &mut a);
    assert!(m.is_none());
}

#[test]
fn the_mailbox_needs_memory() {
    let mut a = AllocBuddy::new(0x10_0000, 1 << 16);
    while a.allocate(16, 16) != 0 {}
    assert!(Mbox::new(4, &mut a).is_none());
}
