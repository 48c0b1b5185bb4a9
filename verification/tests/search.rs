use tuner::correlate::{MAX_SQUARE, MAX_TERMS};
use tuner::{
    autocorrelate, closest, default_config, difference, error_squared, insertion_point, sort,
    sort_unique, window_error, Config, Detection, PhaseTable, TunerError,
};

fn repeated(pattern: &[i16], len: usize) -> Vec<i16> {
    let mut out = Vec::new();
    for i in 0..len {
        out.push(pattern[i % pattern.len()]);
    }
    out
}

#[test]
fn squared_differences() {
    assert_eq!(0, error_squared(7, 7));
    assert_eq!(9, error_squared(1, 4));
    assert_eq!(9, error_squared(4, 1));
    assert_eq!(100, error_squared(-5, 5));
    assert_eq!(4294836225, error_squared(i16::MIN, i16::MAX));
    assert_eq!(MAX_SQUARE, error_squared(i16::MAX, i16::MIN));
}

#[test]
fn the_sum_fits_the_accumulator() {
    assert_eq!(1u64 << 32, MAX_TERMS);
    assert!((MAX_TERMS as u128) * (MAX_SQUARE as u128) < u64::MAX as u128);
}

#[test]
fn window_error_without_limit_is_the_full_sum() {
    let data = [1i16, 2, 4, 8, 16, 32, 64, 128];
    // (1-2)^2 + (2-4)^2 + (4-8)^2 + (8-16)^2
    assert_eq!(1 + 4 + 16 + 64, window_error(&data, 1, u64::MAX, 4));
    // (1-4)^2 + (2-8)^2 + (4-16)^2
    assert_eq!(9 + 36 + 144, window_error(&data, 2, u64::MAX, 3));
    assert_eq!(0, window_error(&data, 0, u64::MAX, 8));
    assert_eq!(0, window_error(&data, 3, u64::MAX, 0));
}

#[test]
fn window_error_stops_at_the_limit() {
    let data = [1i16, 2, 4, 8, 16, 32, 64, 128];
    assert_eq!(1 + 4, window_error(&data, 1, 5, 4));
    assert_eq!(1 + 4, window_error(&data, 1, 2, 4));
    assert_eq!(1, window_error(&data, 1, 1, 4));
    assert_eq!(1 + 4 + 16, window_error(&data, 1, 6, 4));
    assert_eq!(1 + 4 + 16 + 64, window_error(&data, 1, 22, 4));
    assert_eq!(1 + 4 + 16 + 64, window_error(&data, 1, 86, 4));
}

#[test]
fn window_error_takes_the_first_term_whatever_the_limit() {
    let data = [3i16, 3, 5, 9];
    assert_eq!(0, window_error(&data, 1, 0, 1));
    assert_eq!(0, window_error(&data, 1, 0, 3));
    assert_eq!(4, window_error(&data, 2, 0, 2));
}

#[test]
fn window_error_of_extreme_samples() {
    let data = [i16::MIN, i16::MAX, i16::MIN, i16::MAX, i16::MIN, i16::MAX];
    assert_eq!(3 * 4294836225u64, window_error(&data, 1, u64::MAX, 3));
    assert_eq!(0, window_error(&data, 2, u64::MAX, 3));
}

#[test]
fn period_of_a_repeating_window() {
    let data = repeated(&[0, 10, -10, 3, 7], 16);
    assert_eq!(5, autocorrelate(3, 8, &data));
    assert_eq!(0, window_error(&data, 5, u64::MAX, 8));
    assert_eq!(5, autocorrelate(5, 8, &data));
    assert_eq!(5, autocorrelate(2, 6, &data));
}

#[test]
fn period_of_a_longer_window() {
    let mut pattern = Vec::new();
    for i in 0..37i16 {
        pattern.push((i * i * 13 % 101) - 50);
    }
    let data = repeated(&pattern, 200);
    for low in [1usize, 20, 36, 37] {
        assert_eq!(37, autocorrelate(low, 100, &data));
    }
}

#[test]
fn equal_errors_keep_the_first_offset() {
    let data = vec![0i16; 40];
    assert_eq!(3, autocorrelate(3, 20, &data));
    let data = repeated(&[1, 2, 3], 40);
    assert_eq!(3, autocorrelate(2, 20, &data));
    assert_eq!(6, autocorrelate(4, 20, &data));
}

#[test]
fn one_candidate_is_returned() {
    let data = [5i16, -3, 8, 100, -100, 7, 1, 2, 3, 4];
    assert_eq!(4, autocorrelate(4, 5, &data));
    assert_eq!(5, autocorrelate(5, 5, &data));
    assert_eq!(0, autocorrelate(0, 0, &[]));
}

#[test]
fn least_error_wins_without_an_exact_period() {
    // offset 2: 1 + 1 + 1 + 1; offset 3: 81 + 121 + 81 + 121
    let data = [0i16, 10, 1, 9, 2, 10, 1, 10];
    assert_eq!(1 + 1 + 1 + 1, window_error(&data, 2, u64::MAX, 4));
    assert_eq!(2, autocorrelate(1, 4, &data));
    assert_eq!(2, autocorrelate(2, 4, &data));
    assert_eq!(3, autocorrelate(3, 4, &data));
}

#[test]
fn distances() {
    assert_eq!(3, difference(-21isize, -24isize));
    assert_eq!(3, difference(-24isize, -21isize));
    assert_eq!(0, difference(7usize, 7usize));
    assert_eq!(usize::MAX as u64, difference(0usize, usize::MAX));
    assert_eq!(usize::MAX as u64, difference(usize::MAX, 0usize));
    assert_eq!(
        isize::MAX as u64 + isize::MIN.unsigned_abs() as u64,
        difference(isize::MIN, isize::MAX)
    );
}

#[test]
fn closest_of_the_guitar_pitches() {
    let targets: [isize; 6] = [-29, -24, -19, -14, -10, -5];
    assert_eq!(0, closest(-29, &targets));
    assert_eq!(0, closest(-100, &targets));
    assert_eq!(5, closest(100, &targets));
    assert_eq!(2, closest(-21, &targets));
    assert_eq!(1, closest(-22, &targets));
    assert_eq!(5, closest(-5, &targets));
    assert_eq!(3, closest(-14, &targets));
}

#[test]
fn closest_breaks_ties_toward_the_lower_target() {
    let targets: [usize; 3] = [10, 20, 30];
    assert_eq!(0, closest(15, &targets));
    assert_eq!(1, closest(16, &targets));
    assert_eq!(1, closest(25, &targets));
    assert_eq!(2, closest(26, &targets));
    assert_eq!(0, closest(0, &targets));
    assert_eq!(2, closest(usize::MAX, &targets));
    assert_eq!(0, closest(7usize, &[7usize]));
    assert_eq!(0, closest(700usize, &[7usize]));
}

#[test]
fn closest_among_equal_targets() {
    let targets: [usize; 5] = [10, 20, 20, 20, 30];
    assert_eq!(1, closest(20, &targets));
    assert_eq!(3, closest(24, &targets));
    assert_eq!(0, closest(15, &targets));
    assert_eq!(1, closest(16, &targets));
}

#[test]
fn closest_at_the_ends_of_the_number_range() {
    let targets: [isize; 2] = [isize::MIN, isize::MAX];
    assert_eq!(0, closest(-1, &targets));
    assert_eq!(1, closest(0, &targets));
    assert_eq!(0, closest(isize::MIN, &targets));
    assert_eq!(1, closest(isize::MAX, &targets));
}

#[test]
fn insertion_points() {
    let xs: [isize; 5] = [-3, 0, 0, 4, 9];
    assert_eq!(0, insertion_point(-4, &xs));
    assert_eq!(0, insertion_point(-3, &xs));
    assert_eq!(1, insertion_point(-1, &xs));
    assert_eq!(1, insertion_point(0, &xs));
    assert_eq!(3, insertion_point(1, &xs));
    assert_eq!(4, insertion_point(9, &xs));
    assert_eq!(5, insertion_point(10, &xs));
    assert_eq!(0, insertion_point(10isize, &[]));
}

#[test]
fn sorting() {
    assert_eq!(vec![1usize, 2, 2, 3, 9], sort(&[9usize, 2, 3, 1, 2]));
    assert_eq!(vec![-7isize, -1, 0, 5], sort(&[5isize, -7, 0, -1]));
    assert_eq!(Vec::<usize>::new(), sort::<usize>(&[]));
}

#[test]
fn sorting_keeps_each_value_once() {
    assert_eq!(vec![1usize, 2, 3, 9], sort_unique(&[9usize, 2, 3, 1, 2]));
    assert_eq!(vec![-7isize, 0, 5], sort_unique(&[5isize, -7, 0, 5, 5, -7]));
    assert_eq!(vec![4usize], sort_unique(&[4usize, 4, 4]));
    assert_eq!(vec![isize::MIN, isize::MAX], sort_unique(&[isize::MAX, isize::MIN, isize::MAX]));
    assert_eq!(Vec::<usize>::new(), sort_unique::<usize>(&[]));
}

#[test]
fn settings_keep_each_pitch_once() {
    let config = Config::new(440_000, 44100, "A A4").ok().unwrap();
    assert_eq!(&[0], config.pitches());
    let config = Config::new(440_000, 44100, "E4 B3 E4 G3 B3 E♮4").ok().unwrap();
    assert_eq!(&[-14, -10, -5], config.pitches());
}

#[test]
fn default_settings() {
    let config = default_config();
    assert_eq!(440_000, config.reference_millihertz());
    assert_eq!(44100, config.sample_rate());
    assert_eq!(&[-29, -24, -19, -14, -10, -5], config.pitches());
}

#[test]
fn settings_from_text() {
    let config = Config::new(415_300, 48000, "G3 D4 A B5").ok().unwrap();
    assert_eq!(415_300, config.reference_millihertz());
    assert_eq!(48000, config.sample_rate());
    assert_eq!(&[-14, -7, 0, 14], config.pitches());
}

#[test]
fn settings_are_refused() {
    assert_eq!(Some(TunerError::InvalidNote), Config::new(440_000, 44100, "H4").err());
    assert_eq!(Some(TunerError::InvalidNote), Config::new(440_000, 44100, "E2 H4").err());
    assert_eq!(Some(TunerError::PrecondViolation), Config::new(440_000, 44100, "").err());
    assert_eq!(Some(TunerError::PrecondViolation), Config::new(440_000, 44100, "  ").err());
    assert_eq!(Some(TunerError::PrecondViolation), Config::new(0, 44100, "A").err());
    assert_eq!(Some(TunerError::PrecondViolation), Config::new(440_000, 0, "A").err());
    assert_eq!(Some(TunerError::PrecondViolation), Config::new(0, 44100, "H4").err());
}

#[test]
fn phase_table_is_sorted() {
    let table = PhaseTable::new(&[535, 401, 300, 225, 179, 134]).ok().unwrap();
    assert_eq!(&[134, 179, 225, 300, 401, 535], table.phases());
    assert_eq!(134, table.phase_min());
    assert_eq!(535, table.phase_max());
    assert_eq!(Some(1070), table.window_len());
}

#[test]
fn phase_table_keeps_equal_periods() {
    let table = PhaseTable::new(&[9, 4, 9, 4]).ok().unwrap();
    assert_eq!(&[4, 4, 9, 9], table.phases());
}

#[test]
fn phase_table_is_refused() {
    assert_eq!(Some(TunerError::PrecondViolation), PhaseTable::new(&[]).err());
    assert_eq!(Some(TunerError::PrecondViolation), PhaseTable::new(&[0]).err());
    assert_eq!(Some(TunerError::PrecondViolation), PhaseTable::new(&[5, 0, 7]).err());
    assert!(PhaseTable::new(&[1]).is_ok());
    if let Ok(big) = usize::try_from(MAX_TERMS + 1) {
        assert_eq!(Some(TunerError::PrecondViolation), PhaseTable::new(&[5, big]).err());
        assert!(PhaseTable::new(&[5, big - 1]).is_ok());
    }
}

#[test]
fn analysis_of_a_window() {
    let table = PhaseTable::new(&[12, 4, 7, 9]).ok().unwrap();
    let data = repeated(&[0, 10, -10, 3, 7, 1, -4, 6], 24);
    assert_eq!(Ok(Detection { phase: 8, target: 1 }), table.analyze(&data));
    let data = repeated(&[0, 10, -10, 3, 7], 30);
    assert_eq!(Ok(Detection { phase: 5, target: 0 }), table.analyze(&data));
    let data = repeated(&[0, 10, -10, 3, 7, 1, -4, 6, 2, 2, 9], 24);
    assert_eq!(Ok(Detection { phase: 11, target: 3 }), table.analyze(&data));
}

#[test]
fn analysis_of_a_short_window() {
    let table = PhaseTable::new(&[12, 4, 7, 9]).ok().unwrap();
    let data = repeated(&[0, 10, -10, 3, 7], 23);
    assert_eq!(Err(TunerError::PrecondViolation), table.analyze(&data));
    assert_eq!(Err(TunerError::PrecondViolation), table.analyze(&[]));
}

#[test]
fn analysis_with_one_target() {
    let table = PhaseTable::new(&[6]).ok().unwrap();
    let data = repeated(&[1, 2, 3, 4], 12);
    assert_eq!(Ok(Detection { phase: 6, target: 0 }), table.analyze(&data));
}
