use ace128_driver::{convert_pin_states, decode, lookup, Ace128, PinSampler, Step, ACE128_MAP, NO_POSITION};
use embedded_hal::digital::v2::InputPin;
use embedded_hal_mock::pin::{Mock as PinMock, State as PinState, Transaction as PinTransaction};
use embedded_hal_mock::MockError;

fn all_positions() -> Vec<u8> {
    (0..=255u8).filter_map(lookup).collect()
}

fn read_encoder<P: InputPin>(encoder: &Ace128<P>) -> Result<Option<u8>, P::Error> {
    let mut sampler = PinSampler::new();
    let mut step = sampler.next();
    loop {
        match step {
            Step::Sample(n) => step = sampler.record(encoder.pin(n).is_high()),
            Step::Decoded(position) => return Ok(position),
            Step::Failed(e) => return Err(e),
        }
    }
}

fn level(high: bool) -> PinTransaction {
    PinTransaction::get(if high { PinState::High } else { PinState::Low })
}

/// Mocks for pins 1 to 8, each expecting the given reads.
fn mocks(expectations: &[Vec<PinTransaction>]) -> Vec<PinMock> {
    expectations.iter().map(|e| PinMock::new(e)).collect()
}

fn encoder_of(pins: &[PinMock]) -> Ace128<PinMock> {
    Ace128::new(
        pins[0].clone(),
        pins[1].clone(),
        pins[2].clone(),
        pins[3].clone(),
        pins[4].clone(),
        pins[5].clone(),
        pins[6].clone(),
        pins[7].clone(),
    )
}

#[test]
fn correct_constants() {
    let count = ACE128_MAP.iter().filter(|&&x| x != NO_POSITION).count();
    assert_eq!(count, 128);
}

#[test]
fn correct_number_of_constants() {
    let count = all_positions().len();
    assert_eq!(count, 128);
}

#[test]
fn correct_sum_of_constants() {
    let sum: u32 = all_positions().iter().map(|&x| u32::from(x)).sum();
    assert_eq!(sum, 127 * 128 / 2);
}

#[test]
fn monotonically_increasing_constants() {
    let mut map = all_positions();
    map.sort();
    for (ix, val) in map.iter().enumerate() {
        assert_eq!(ix as u8, *val);
    }
}

#[test]
fn test_position_zero() {
    let expectations = [
        vec![PinTransaction::get(PinState::High)],
        vec![PinTransaction::get(PinState::High)],
        vec![PinTransaction::get(PinState::High)],
        vec![PinTransaction::get(PinState::High)],
        vec![PinTransaction::get(PinState::High)],
        vec![PinTransaction::get(PinState::High)],
        vec![PinTransaction::get(PinState::High)],
        vec![PinTransaction::get(PinState::Low)],
    ];
    let mut pins = mocks(&expectations);
    let encoder = encoder_of(&pins);

    assert_eq!(read_encoder(&encoder).unwrap(), Some(0));
    for pin in pins.iter_mut() {
        pin.done();
    }
}

#[test]
fn invalid_code_count() {
    let invalid = (0..=255u8).filter(|&c| lookup(c).is_none()).count();
    assert_eq!(invalid, 128);
}

#[test]
fn each_position_once() {
    let mut seen = [0u32; 128];
    for p in all_positions() {
        assert!(p < 128);
        seen[p as usize] += 1;
    }
    assert!(seen.iter().all(|&n| n == 1));
}

#[test]
fn lookup_of_known_codes() {
    assert_eq!(lookup(127), Some(0));
    assert_eq!(lookup(63), Some(1));
    assert_eq!(lookup(1), Some(56));
    assert_eq!(lookup(46), Some(37));
    assert_eq!(lookup(166), Some(27));
    assert_eq!(lookup(254), Some(112));
    assert_eq!(lookup(0), None);
    assert_eq!(lookup(255), None);
}

#[test]
fn pack_is_big_endian() {
    assert_eq!(convert_pin_states([true, true, true, true, true, true, true, false]), 254);
    assert_eq!(convert_pin_states([false; 8]), 0);
    assert_eq!(convert_pin_states([true; 8]), 255);
    assert_eq!(convert_pin_states([true, false, false, false, false, false, false, false]), 128);
    assert_eq!(convert_pin_states([false, false, false, false, false, false, false, true]), 1);
    assert_eq!(convert_pin_states([false, false, true, false, true, true, true, false]), 46);
}

#[test]
fn decode_snapshots() {
    assert_eq!(decode([false, true, true, true, true, true, true, true]), Some(0));
    assert_eq!(decode([true, true, true, true, true, true, true, false]), Some(112));
    assert_eq!(decode([false; 8]), None);
    assert_eq!(decode([true; 8]), None);
}

#[test]
fn sampling_reads_pin_eight_first() {
    let mut sampler = PinSampler::new();
    let mut order = Vec::new();
    let mut step: Step<()> = sampler.next();
    while let Step::Sample(n) = step {
        order.push(n);
        step = sampler.record(Ok(n != 8));
    }
    assert_eq!(order, vec![8, 7, 6, 5, 4, 3, 2, 1]);
    assert_eq!(step, Step::Decoded(Some(0)));
    // Once complete, a further outcome changes nothing.
    assert_eq!(sampler.record(Err(())), Step::Decoded(Some(0)));
}

#[test]
fn sampling_stops_at_first_error() {
    let mut sampler = PinSampler::new();
    assert_eq!(sampler.record::<u32>(Ok(true)), Step::Sample(7));
    assert_eq!(sampler.record::<u32>(Ok(false)), Step::Sample(6));
    assert_eq!(sampler.record::<u32>(Err(7)), Step::Failed(7));
    // The failed read left the levels as they were.
    assert_eq!(sampler.next::<u32>(), Step::Sample(6));
}

#[test]
fn pin_failure_propagates_without_further_reads() {
    let error = MockError::Io(std::io::ErrorKind::Other);
    // Pin 5 fails; pins 4 to 1 expect no read at all.
    let expectations = [
        vec![],
        vec![],
        vec![],
        vec![],
        vec![level(true).with_error(error.clone())],
        vec![level(true)],
        vec![level(true)],
        vec![level(false)],
    ];
    let mut pins = mocks(&expectations);
    let encoder = encoder_of(&pins);

    assert_eq!(read_encoder(&encoder), Err(error));
    for pin in pins.iter_mut() {
        pin.done();
    }
}

#[test]
fn repeated_reads_agree() {
    let levels = [true, false, true, true, false, false, true, true];
    // Pin n gives the level at index 8 - n of the snapshot.
    let expectations: Vec<Vec<PinTransaction>> =
        (1..=8).map(|n| vec![level(levels[8 - n]), level(levels[8 - n])]).collect();
    let mut pins = mocks(&expectations);
    let encoder = encoder_of(&pins);

    let first = read_encoder(&encoder).unwrap();
    let second = read_encoder(&encoder).unwrap();
    assert_eq!(first, second);
    assert_eq!(first, decode(levels));
    for pin in pins.iter_mut() {
        pin.done();
    }
}

#[test]
fn pins_keep_their_numbers() {
    let encoder = Ace128::new(1u8, 2, 3, 4, 5, 6, 7, 8);
    for n in 1..=8u8 {
        assert_eq!(*encoder.pin(n), n);
    }
}
