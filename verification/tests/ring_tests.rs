use simlogtail::ring::CircularBuffer;

fn last(items: &[u32], cap: usize) -> Vec<u32> {
    let start = if items.len() > cap { items.len() - cap } else { 0 };
    items[start..].to_vec()
}

#[test]
fn ring_keeps_the_most_recent_items() {
    for cap in 1..6usize {
        for count in 0..15u32 {
            let mut b = CircularBuffer::with_capacity(cap);
            let items: Vec<u32> = (0..count).collect();
            for i in items.iter() {
                b.push(*i);
            }
            assert_eq!(b.into_vec(), last(&items, cap), "cap {} count {}", cap, count);
        }
    }
}

#[test]
fn ring_empty_and_capacity_zero() {
    let b: CircularBuffer<String> = CircularBuffer::with_capacity(0);
    assert!(b.into_vec().is_empty());
    let b: CircularBuffer<String> = CircularBuffer::with_capacity(3);
    assert!(b.into_vec().is_empty());
}

#[test]
fn ring_of_one_holds_the_last() {
    let mut b = CircularBuffer::with_capacity(1);
    b.push("a".to_string());
    b.push("b".to_string());
    b.push("c".to_string());
    assert_eq!(b.into_vec(), vec!["c".to_string()]);
}


#[test]
fn ring_of_capacity_zero_stays_empty() {
    let mut b = CircularBuffer::with_capacity(0);
    b.push(1u8);
    b.push(2u8);
    assert!(b.into_vec().is_empty());
}
