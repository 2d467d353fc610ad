use tfhe::container::ContiguousEntityContainer;

fn sample() -> ContiguousEntityContainer {
    ContiguousEntityContainer::from_container((0..12).collect(), 3)
}

#[test]
fn entity_count_times_stride_is_length() {
    let c = sample();
    assert_eq!(c.entity_count(), 4);
    assert_eq!(c.entity_count() * c.entity_stride, c.data.len());
}

#[test]
fn split_at_and_concatenate_gives_buffer_back() {
    let c = sample();
    for mid in 0..=4 {
        let (left, right) = c.split_at(mid);
        assert_eq!(left.entity_count(), mid);
        assert_eq!(right.entity_count(), 4 - mid);
        let mut joined = left.data.clone();
        joined.extend_from_slice(&right.data);
        assert_eq!(joined, c.data);
    }
}

#[test]
fn get_matches_iter_and_par_iter() {
    let c = sample();
    let all = c.iter();
    let par = c.par_iter();
    assert_eq!(all.len(), 4);
    for i in 0..4 {
        assert_eq!(c.get(i), all[i]);
        assert_eq!(par[i], all[i]);
    }
    assert_eq!(c.get(2), vec![6, 7, 8]);
    assert_eq!(par[3], vec![9, 10, 11]);
}

#[test]
fn last_of_empty_and_full() {
    let empty = ContiguousEntityContainer::from_container(Vec::new(), 5);
    assert!(empty.last().is_none());
    assert!(empty.par_iter().is_empty());
    assert_eq!(sample().last(), Some(vec![9, 10, 11]));
}

#[test]
fn chunks_exact_groups_entities() {
    let c = sample();
    let chunks = c.chunks_exact(2);
    assert_eq!(chunks.len(), 2);
    assert_eq!(chunks[0].data, vec![0, 1, 2, 3, 4, 5]);
    assert_eq!(chunks[1].data, vec![6, 7, 8, 9, 10, 11]);
    assert_eq!(chunks[1].entity_count(), 2);
}
