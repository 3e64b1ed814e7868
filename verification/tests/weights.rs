use cluster_controller::weights::{
    close_channel_at, do_close_channel_at, initiate_channel_at, relay_message_response_at, Get,
    ParityDbWeight, RuntimeDbWeight, SubstrateWeight, SystemConfig, Weight, WeightInfo,
};

struct ParityRuntime;

impl SystemConfig for ParityRuntime {
    type DbWeight = ParityDbWeight;
}

struct RocksDbWeight;

impl Get<RuntimeDbWeight> for RocksDbWeight {
    fn spec_get() -> RuntimeDbWeight {
        RuntimeDbWeight { read: 25_000_000, write: 100_000_000 }
    }

    fn get() -> RuntimeDbWeight {
        RuntimeDbWeight { read: 25_000_000, write: 100_000_000 }
    }
}

struct RocksRuntime;

impl SystemConfig for RocksRuntime {
    type DbWeight = RocksDbWeight;
}

struct HugeDbWeight;

impl Get<RuntimeDbWeight> for HugeDbWeight {
    fn spec_get() -> RuntimeDbWeight {
        RuntimeDbWeight { read: u64::MAX / 2, write: 1 }
    }

    fn get() -> RuntimeDbWeight {
        RuntimeDbWeight { read: u64::MAX / 2, write: 1 }
    }
}

struct HugeRuntime;

impl SystemConfig for HugeRuntime {
    type DbWeight = HugeDbWeight;
}

#[test]
fn parity_db_weight_prices() {
    let db = ParityDbWeight::get();
    assert_eq!(db.read, 8_000_000);
    assert_eq!(db.write, 50_000_000);
}

#[test]
fn unit_weights_use_parity_db() {
    assert_eq!(<() as WeightInfo>::initiate_channel(), Weight::from_parts(491_882_000, 9015));
    assert_eq!(<() as WeightInfo>::close_channel(), Weight::from_parts(267_649_000, 3715));
    assert_eq!(<() as WeightInfo>::do_open_channel(), Weight::from_parts(69_706_000, 3692));
    assert_eq!(<() as WeightInfo>::do_close_channel(), Weight::from_parts(69_477_000, 3692));
    assert_eq!(<() as WeightInfo>::relay_message(), Weight::from_parts(385_070_000, 3811));
    assert_eq!(<() as WeightInfo>::relay_message_response(), Weight::from_parts(384_336_000, 4005));
}

#[test]
fn substrate_weights_match_unit_weights_on_parity_db() {
    type W = SubstrateWeight<ParityRuntime>;
    assert_eq!(W::initiate_channel(), <() as WeightInfo>::initiate_channel());
    assert_eq!(W::close_channel(), <() as WeightInfo>::close_channel());
    assert_eq!(W::do_open_channel(), <() as WeightInfo>::do_open_channel());
    assert_eq!(W::do_close_channel(), <() as WeightInfo>::do_close_channel());
    assert_eq!(W::relay_message(), <() as WeightInfo>::relay_message());
    assert_eq!(W::relay_message_response(), <() as WeightInfo>::relay_message_response());
}

#[test]
fn substrate_weights_follow_runtime_db_weight() {
    type W = SubstrateWeight<RocksRuntime>;
    // 85_882_000 + 7 * 25_000_000 + 7 * 100_000_000
    assert_eq!(W::initiate_channel(), Weight::from_parts(960_882_000, 9015));
    // 11_706_000 + 25_000_000 + 100_000_000
    assert_eq!(W::do_open_channel(), Weight::from_parts(136_706_000, 3692));
    assert_eq!(W::relay_message().proof_size(), 3811);
}

#[test]
fn weights_saturate() {
    type W = SubstrateWeight<HugeRuntime>;
    assert_eq!(W::initiate_channel().ref_time(), u64::MAX);
    assert_eq!(W::do_open_channel().ref_time(), u64::MAX / 2 + 11_706_000 + 1);
    let w = Weight::from_parts(u64::MAX - 1, 5).saturating_add(Weight::from_parts(10, u64::MAX));
    assert_eq!(w, Weight::from_parts(u64::MAX, u64::MAX));
    let db = RuntimeDbWeight { read: 3, write: u64::MAX };
    assert_eq!(db.reads(4), Weight::from_parts(12, 0));
    assert_eq!(db.writes(2), Weight::from_parts(u64::MAX, 0));
}

#[test]
fn weights_at_a_given_db_weight() {
    let db = RuntimeDbWeight { read: 1_000, write: 10_000 };
    assert_eq!(initiate_channel_at(db), Weight::from_parts(85_882_000 + 7_000 + 70_000, 9015));
    assert_eq!(close_channel_at(db), Weight::from_parts(35_649_000 + 4_000 + 40_000, 3715));
    assert_eq!(do_close_channel_at(db), Weight::from_parts(11_477_000 + 11_000, 3692));
    assert_eq!(relay_message_response_at(db), Weight::from_parts(36_336_000 + 66_000, 4005));
    let free = RuntimeDbWeight { read: 0, write: 0 };
    assert_eq!(initiate_channel_at(free), Weight::from_parts(85_882_000, 9015));
}
