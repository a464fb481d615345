use ferrium::apply::WriteCommand;
use ferrium::raft::state::Role;
use ferrium::sim::SimCluster;

fn set(key: &str, value: &str) -> WriteCommand {
    WriteCommand::SetKey {
        key: key.into(),
        value: value.as_bytes().to_vec(),
    }
}

#[test]
fn cluster_elects_a_single_leader() {
    let mut cluster = SimCluster::new(3, 42);
    assert!(cluster.run_until(100, |c| c.leader().is_some()));
}

#[test]
fn writes_replicate_to_all_nodes() {
    let mut cluster = SimCluster::new(3, 7);
    assert!(cluster.run_until(100, |c| c.leader().is_some()));
    let leader = cluster.leader().unwrap();

    cluster.propose(leader, set("hello", "world"));
    cluster.run(30);

    for i in 0..cluster.size() {
        assert_eq!(cluster.get(i, "hello").as_deref(), Some(&b"world"[..]));
    }
}

#[test]
fn cluster_survives_leader_crash() {
    let mut cluster = SimCluster::new(5, 100);
    assert!(
        cluster.run_until(200, |c| c.leader().is_some()),
        "no leader"
    );

    let leader = cluster.leader().unwrap();
    cluster.propose(leader, set("before", "crash"));
    cluster.run(40);

    // Kill the leader and confirm the majority re-elects and stays available.
    cluster.crash(leader);
    let elected_new = cluster.run_until(300, |c| c.leader().map(|l| l != leader).unwrap_or(false));
    assert!(elected_new, "cluster failed to re-elect after leader crash");

    let new_leader = cluster.leader().unwrap();
    assert!(cluster
        .propose(new_leader, set("after", "failover"))
        .is_some());
    cluster.run(60);

    // Every live node must have both writes applied.
    for i in 0..cluster.size() {
        if i == leader {
            continue;
        }
        assert_eq!(cluster.get(i, "before").as_deref(), Some(&b"crash"[..]));
        assert_eq!(cluster.get(i, "after").as_deref(), Some(&b"failover"[..]));
    }
}

#[test]
fn minority_partition_cannot_make_progress() {
    let mut cluster = SimCluster::new(3, 55);
    assert!(cluster.run_until(200, |c| c.leader().is_some()));

    // Isolate a single node: the remaining majority keeps a leader...
    cluster.disconnect(0);
    let majority_has_leader =
        cluster.run_until(300, |c| c.leader().map(|l| l != 0).unwrap_or(false));
    assert!(majority_has_leader, "majority lost its leader");

    // ...and the isolated node, unable to win a majority, never becomes leader.
    assert_ne!(cluster.leader(), Some(0));

    // Healing the partition lets it rejoin without disturbing the leader.
    cluster.reconnect(0);
    cluster.run(60);
    assert!(cluster.leader().is_some());
}

#[test]
fn crashed_nodes_stay_put_and_terms_never_fall() {
    let mut cluster = SimCluster::new(3, 9);
    cluster.crash(2);
    let before = cluster.term(2);
    let mut terms: Vec<u64> = (0..3).map(|i| cluster.term(i)).collect();
    for _ in 0..50 {
        cluster.step();
        for i in 0..3 {
            assert!(cluster.term(i) >= terms[i]);
            terms[i] = cluster.term(i);
        }
    }
    assert_eq!(cluster.term(2), before);
    assert_eq!(cluster.commit_index(2), 0);
    cluster.restart(2);
    assert!(cluster.run_until(200, |c| c.leader().is_some()));
}

#[test]
fn same_seed_reproduces_the_run() {
    let mut a = SimCluster::new(5, 77);
    let mut b = SimCluster::new(5, 77);
    for step in 0..120 {
        if step == 40 {
            if let Some(l) = a.leader() {
                assert_eq!(b.leader(), Some(l));
                assert_eq!(a.propose(l, set("k", "v")), b.propose(l, set("k", "v")));
            }
        }
        a.step();
        b.step();
        assert_eq!(a.leader(), b.leader());
        for i in 0..5 {
            assert_eq!(a.term(i), b.term(i));
            assert_eq!(a.commit_index(i), b.commit_index(i));
            assert_eq!(a.get(i, "k"), b.get(i, "k"));
        }
    }
}

#[test]
fn never_two_leaders_in_one_term() {
    let mut c = SimCluster::new(5, 3);
    for step in 0..400u64 {
        match step % 97 {
            10 => c.disconnect((step % 5) as usize),
            40 => c.crash(((step + 2) % 5) as usize),
            70 => {
                for i in 0..5 {
                    c.reconnect(i);
                    c.restart(i);
                }
            }
            _ => {}
        }
        c.step();
        for i in 0..5 {
            for j in 0..5 {
                if i != j && c.role(i) == Role::Leader && c.role(j) == Role::Leader {
                    assert_ne!(c.term(i), c.term(j));
                }
            }
        }
    }
}
