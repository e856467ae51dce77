use labs::sensor::SensorStats;
use labs::sensor::{CircularBuffer, SensorData};

fn measurements(values: [f32; 10]) -> [u32; 10] {
    let mut bits = [0u32; 10];
    for i in 0..10 {
        bits[i] = values[i].to_bits();
    }
    bits
}

fn random_measurements() -> [u32; 10] {
    let mut array: [f32; 10] = [0.; 10];
    for i in 0..10 {
        array[i] = rand::random::<f32>() * 100.;
    }
    measurements(array)
}

#[test]
fn sensor_data_sequence_generation() {
    let mut sensor_data_generator = SensorData::new();

    let sensor_data_1 = sensor_data_generator.next(measurements([0., 0., 0., 0., 0., 0., 0., 0., 0., 0.]));
    assert_eq!(1, sensor_data_1.get_seq());
    let sensor_data_2 = sensor_data_generator.next(measurements([0., 0., 0., 0., 0., 0., 0., 0., 0., 0.]));
    assert_eq!(2, sensor_data_2.get_seq());
    let sensor_data_3 = sensor_data_generator.next(measurements([0., 0., 0., 0., 0., 0., 0., 0., 0., 0.]));
    assert_eq!(3, sensor_data_3.get_seq());
}

#[test]
fn sensor_data_sequence_generation_random() {
    let mut sensor_data_generator = SensorData::new();

    let sensor_data_1 = sensor_data_generator.next(random_measurements());
    assert_eq!(1, sensor_data_1.get_seq());
    println!("{:?}", sensor_data_1);
    let sensor_data_2 = sensor_data_generator.next(random_measurements());
    assert_eq!(2, sensor_data_2.get_seq());
    println!("{:?}", sensor_data_2);
    let sensor_data_3 = sensor_data_generator.next(random_measurements());
    assert_eq!(3, sensor_data_3.get_seq());
    println!("{:?}", sensor_data_3);
}

#[test]
fn buffer_life_cycle() {
    let mut sensor_data_generator = SensorData::new();

    let mut buffer = CircularBuffer::default();
    assert_eq!(false, buffer.full());
    assert_eq!(true, buffer.empty());
    let mut c = 0;
    for _ in 0..25 {
        assert_eq!(false, buffer.full());
        buffer.store(sensor_data_generator.next(random_measurements()));
        if buffer.full() {
            break;
        }
        c += 1;
        assert_eq!(false, buffer.empty());
    }

    assert_eq!(true, buffer.full());
    assert_eq!(false, buffer.empty());
    assert_eq!(c, 19);
}

#[test]
fn sequence_numbers_wrap_after_eight_sensors() {
    let mut g = SensorData::new();
    let seqs: Vec<u32> = (0..10).map(|_| g.next_at([0; 10], 7).get_seq()).collect();
    assert_eq!(seqs, vec![1, 2, 3, 4, 5, 6, 7, 8, 1, 2]);
}

#[test]
fn next_at_keeps_values_and_time() {
    let mut g = SensorData::new();
    let values = measurements([0., 1., 54.43, 0., 0., 0., 0., 0., -0.42, 0.]);
    let d = g.next_at(values, 1234);
    assert_eq!(d.get_values(), values);
    assert_eq!(d.timestamp, 1234);
    assert_eq!(f32::from_bits(d.get_values()[2]), 54.43);
}

#[test]
fn store_then_read_from_index_gives_the_reading_back() {
    let mut g = SensorData::new();
    let mut buffer = CircularBuffer::default();
    let delta = g.next_at(measurements([0., 1., 54.43, 0., 0., 0., 0., 0., -0.42, 0.]), 5);
    let index = buffer.store(delta).unwrap();
    assert_eq!(index, 0);
    let read = *buffer.read_from_index(&index);
    assert_eq!(read, delta);
    assert_eq!(*buffer.read_from_index(&index), SensorData::default());
}

#[test]
fn reads_come_out_in_store_order() {
    let mut g = SensorData::new();
    let mut buffer = CircularBuffer::default();
    assert!(buffer.read().is_none());
    let a = g.next_at([1; 10], 1);
    let b = g.next_at([2; 10], 2);
    buffer.store(a);
    buffer.store(b);
    assert_eq!(*buffer.read().unwrap(), a);
    assert_eq!(*buffer.read().unwrap(), b);
    assert!(buffer.read().is_none());
    assert!(buffer.empty());
}

#[test]
fn full_buffer_refuses_a_store() {
    let mut g = SensorData::new();
    let mut buffer = CircularBuffer::default();
    for i in 0..20 {
        assert_eq!(buffer.store(g.next_at([0; 10], i)), Some(i as usize));
    }
    assert!(buffer.full());
    assert_eq!(buffer.store(g.next_at([0; 10], 99)), None);
    assert_eq!(buffer.read().unwrap().timestamp, 0);
    assert_eq!(buffer.store(g.next_at([0; 10], 100)), Some(0));
}

#[test]
fn stats_gather_measurements_per_sensor() {
    let mut g = SensorData::new();
    let mut buffer = CircularBuffer::default();
    buffer.store(g.next_at([1; 10], 0));
    buffer.store(g.next_at([2; 10], 0));
    let mut stats = SensorStats::new();
    stats.record(g.next_at([3; 10], 0));
    stats.drain(&mut buffer);
    assert!(buffer.empty());
    assert_eq!(stats.samples(1), Some(vec![1; 10]));
    assert_eq!(stats.samples(2), Some(vec![2; 10]));
    assert_eq!(stats.samples(3), Some(vec![3; 10]));
    assert_eq!(stats.samples(4), None);
    let mut again = CircularBuffer::default();
    let mut g2 = SensorData::new();
    again.store(g2.next_at([5; 10], 0));
    stats.drain(&mut again);
    let mut expected = vec![1; 10];
    expected.extend(vec![5; 10]);
    assert_eq!(stats.samples(1), Some(expected));
}

#[test]
fn buffers_round_trip_through_their_parts() {
    let mut g = SensorData::new();
    let mut buffer = CircularBuffer::default();
    buffer.store(g.next_at([9; 10], 3));
    let (tail, head, counter, slots) = buffer.parts();
    assert_eq!((tail, head, counter), (1, 20, 1));
    let back = CircularBuffer::from_parts(tail, head, counter, slots).unwrap();
    assert_eq!(back, buffer);
    assert!(CircularBuffer::from_parts(5, 20, 1, slots).is_none());
    assert!(CircularBuffer::from_parts(0, 21, 0, slots).is_none());
}

#[test]
fn store_returns_the_slot_after_the_newest_reading() {
    let mut b = CircularBuffer::default();
    let d = SensorData::default();
    assert_eq!(b.store(d), Some(0));
    assert_eq!(b.store(d), Some(1));
    assert!(b.read().is_some());
    assert_eq!(b.store(d), Some(2));
    for k in 3..20 {
        assert_eq!(b.store(d), Some(k));
    }
    assert_eq!(b.store(d), Some(0));
    assert_eq!(b.store(d), None);
}

#[test]
fn producer_keeps_a_reading_until_it_is_stored() {
    use_produce_step();
}

fn use_produce_step() {
    let mut gen = SensorData::new();
    let mut buffer = CircularBuffer::default();
    let first = gen.next([1; 10]);
    assert_eq!(first.seq, 1);
    let (slot, pending) = labs::sensor::produce_step(&mut gen, &mut buffer, first, [2; 10]);
    assert_eq!(slot, Some(0));
    assert_eq!(pending.seq, 2);
    assert_eq!(pending.values, [2; 10]);
    let mut pending = pending;
    for k in 1..20 {
        let (slot, next) = labs::sensor::produce_step(&mut gen, &mut buffer, pending, [3; 10]);
        assert_eq!(slot, Some(k));
        pending = next;
    }
    assert!(buffer.full());
    let held = pending;
    let (slot, again) = labs::sensor::produce_step(&mut gen, &mut buffer, held, [9; 10]);
    assert_eq!(slot, None);
    assert_eq!(again, held);
}
