use libdonet::hashgen::DCHashGenerator;
use libdonet::primes::PrimeNumberGenerator;

#[test]
fn prime_number_generator_integrity() {
    let mut generator: PrimeNumberGenerator = PrimeNumberGenerator::default();

    let prime_numbers: Vec<u16> = vec![
        2, 3, 5, 7, 11, 13, 17, 19, 23, 29, 31, 37, 41, 43, 47, 53, 59, 61, 67, 71, 73, 79, 83, 89,
        97, 101, 103, 107, 109, 113, 127, 131, 137, 139, 149, 151, 157, 163, 167, 173, 179, 181,
        191, 193, 197, 199, 211, 223, 227, 229, 233, 239, 241, 251, 257, 263, 269, 271, 277, 281,
        283, 293, 307, 311, 313, 317, 331, 337, 347, 349, 353, 359, 367, 373, 379, 383, 389, 397,
        401, 409, 419, 421, 431, 433, 439, 443, 449, 457, 461, 463, 467, 479, 487, 491, 499, 503,
        509, 521, 523, 541, 547, 557, 563, 569, 571, 577, 587, 593, 599, 601, 607, 613, 617, 619,
        631, 641, 643, 647, 653, 659, 661, 673, 677, 683, 691, 701, 709, 719, 727, 733, 739, 743,
        751, 757, 761, 769, 773, 787, 797, 809, 811, 821, 823, 827, 829, 839, 853, 857, 859, 863,
        877, 881, 883, 887, 907, 911, 919, 929,
    ];

    for (i, target_prime) in prime_numbers.into_iter().enumerate() {
        assert_eq!(target_prime, generator.get_prime(i.try_into().unwrap()));
    }
}

#[test]
fn prime_cache_reads_are_stable() {
    let mut generator: PrimeNumberGenerator = PrimeNumberGenerator::default();
    assert_eq!(generator.get_prime(10), 31);
    // non-monotonic requests return the cached values unchanged
    assert_eq!(generator.get_prime(3), 7);
    assert_eq!(generator.get_prime(0), 2);
    assert_eq!(generator.get_prime(10), 31);
}

#[test]
fn fresh_generator_hash_is_zero() {
    let hashgen: DCHashGenerator = DCHashGenerator::default();
    assert_eq!(hashgen.get_hash(), 0);
}

#[test]
fn add_int_weights_by_consecutive_primes() {
    // 2*7 + 3*11 + 5*13 = 14 + 33 + 65 = 112
    let mut hashgen: DCHashGenerator = DCHashGenerator::default();
    hashgen.add_int(7);
    hashgen.add_int(11);
    hashgen.add_int(13);
    assert_eq!(hashgen.get_hash(), 112);
}

#[test]
fn add_int_wraps_negative_values() {
    // 2 * -1 = -2, reinterpreted as unsigned 32-bit
    let mut hashgen: DCHashGenerator = DCHashGenerator::default();
    hashgen.add_int(-1);
    assert_eq!(hashgen.get_hash(), 0xfffffffe);
}

#[test]
fn identical_content_hashes_identically() {
    let mut first: DCHashGenerator = DCHashGenerator::default();
    let mut second: DCHashGenerator = DCHashGenerator::default();
    first.add_string(String::from("DistributedAvatar"));
    first.add_int(42);
    second.add_string(String::from("DistributedAvatar"));
    second.add_int(42);
    assert_eq!(first.get_hash(), second.get_hash());

    let mut altered: DCHashGenerator = DCHashGenerator::default();
    altered.add_string(String::from("DistributedAvatarX"));
    altered.add_int(42);
    assert_ne!(first.get_hash(), altered.get_hash());
}

#[test]
fn blob_equals_length_then_bytes() {
    // add_blob(bytes) is add_int(len) followed by add_int of every byte
    let mut grouped: DCHashGenerator = DCHashGenerator::default();
    grouped.add_blob(vec![0x10, 0x20, 0x30]);
    let mut stepwise: DCHashGenerator = DCHashGenerator::default();
    stepwise.add_int(3);
    stepwise.add_int(0x10);
    stepwise.add_int(0x20);
    stepwise.add_int(0x30);
    assert_eq!(grouped.get_hash(), stepwise.get_hash());
    // 2*3 + 3*16 + 5*32 + 7*48 = 6 + 48 + 160 + 336 = 550
    assert_eq!(grouped.get_hash(), 550);
}

#[test]
fn string_hashes_as_utf8_blob() {
    let mut as_string: DCHashGenerator = DCHashGenerator::default();
    as_string.add_string(String::from("ab"));
    let mut as_blob: DCHashGenerator = DCHashGenerator::default();
    as_blob.add_blob(vec![b'a', b'b']);
    assert_eq!(as_string.get_hash(), as_blob.get_hash());
    // 2*2 + 3*97 + 5*98 = 4 + 291 + 490 = 785
    assert_eq!(as_string.get_hash(), 785);
}

#[test]
fn empty_blob_contributes_only_its_length() {
    let mut hashgen: DCHashGenerator = DCHashGenerator::default();
    hashgen.add_blob(Vec::new());
    assert_eq!(hashgen.get_hash(), 0);
    hashgen.add_int(1);
    assert_eq!(hashgen.get_hash(), 3);
}

#[test]
fn changing_a_later_contribution_changes_the_hash() {
    // the rotation index is past the first prime, so any change to a
    // single contribution must change the accumulator
    let mut first: DCHashGenerator = DCHashGenerator::default();
    first.add_int(5);
    first.add_int(100);
    let mut second: DCHashGenerator = DCHashGenerator::default();
    second.add_int(5);
    second.add_int(101);
    assert_ne!(first.get_hash(), second.get_hash());
}

#[test]
fn contribution_order_matters() {
    let mut forward: DCHashGenerator = DCHashGenerator::default();
    forward.add_int(1);
    forward.add_int(2);
    let mut backward: DCHashGenerator = DCHashGenerator::default();
    backward.add_int(2);
    backward.add_int(1);
    assert_ne!(forward.get_hash(), backward.get_hash());
}
