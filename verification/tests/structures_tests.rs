use shell::runnable::jobs::JobInfo;
use shell::structures::dll::{DoublyLinkedList, HasId, Node};
use shell::structures::string::{common_len, lcp};
use shell::structures::string_map::StringMap;
use shell::structures::trie::Trie;

fn job(id: usize, cmd: &str) -> JobInfo {
    JobInfo { job_id: id, command: cmd.to_string() }
}

fn sorted(mut v: Vec<String>) -> Vec<String> {
    v.sort();
    v
}

#[test]
fn trie_insert_and_search() {
    let mut t = Trie::new();
    t.insert("cat");
    t.insert("car");
    assert!(t._search("cat"));
    assert!(t._search("car"));
    assert!(!t._search("ca"));
    assert!(t._starts_with("ca"));
    assert!(t._starts_with(""));
    assert!(!t._starts_with("d"));
    t.clear();
    assert!(!t._search("cat"));
}

#[test]
fn trie_autocomplete_lists_words_with_prefix() {
    let mut t = Trie::new();
    for w in ["cat", "car", "cd", "echo"] {
        t.insert(w);
    }
    assert_eq!(sorted(t.autocomplete("ca")), vec!["car".to_string(), "cat".to_string()]);
    assert_eq!(sorted(t.autocomplete("c")), vec!["car".to_string(), "cat".to_string(), "cd".to_string()]);
    assert!(t.autocomplete("x").is_empty());
}

#[test]
fn trie_autocomplete_of_a_word_follows_a_single_path() {
    let mut t = Trie::new();
    t.insert("git");
    t.insert("github");
    assert_eq!(t.autocomplete("git"), vec!["github".to_string()]);
    t.insert("gitlab");
    assert!(t.autocomplete("git").is_empty());
    let mut u = Trie::new();
    u.insert("cd");
    assert_eq!(u.autocomplete("cd"), vec!["cd".to_string()]);
}

#[test]
fn lcp_of_words() {
    let w = |v: &[&str]| v.iter().map(|s| s.to_string()).collect::<Vec<String>>();
    assert_eq!(lcp(&w(&["flower", "flow", "flight"])), "fl");
    assert_eq!(lcp(&w(&["abc"])), "abc");
    assert_eq!(lcp(&w(&["abc", "abd"])), "ab");
    assert_eq!(lcp(&w(&["abc", "xyz"])), "");
    assert_eq!(lcp(&w(&["ab", "abc"])), "ab");
    assert_eq!(common_len(&w(&["é1", "é2"])), 2);
    assert_eq!(common_len(&w(&["é", "è"])), 1);
}

#[test]
fn string_map_get_after_insert() {
    let mut m = StringMap::new();
    assert!(m.get("a").is_none());
    m.insert("a".to_string(), "1".to_string());
    m.insert("b".to_string(), "2".to_string());
    m.insert("a".to_string(), "3".to_string());
    assert_eq!(m.get("a").unwrap(), "3");
    assert_eq!(m.get("b").unwrap(), "2");
}

#[test]
fn dll_push_and_ids() {
    let mut l: DoublyLinkedList<JobInfo> = DoublyLinkedList::new();
    assert!(l._is_empty());
    l.push_back(job(1, "a"));
    l.push_back(job(2, "b"));
    l._push_front(job(3, "c"));
    assert_eq!(l.ids(), vec![3, 1, 2]);
    assert_eq!(l.head, Some(3));
    assert_eq!(l.tail, Some(2));
    assert!(!l._is_empty());
    let n: &Node<JobInfo> = l.get_node(&1).unwrap();
    assert_eq!(n.prev, Some(3));
    assert_eq!(n.next, Some(2));
    assert_eq!(n.value.command, "a");
    assert!(l.get_node(&9).is_none());
}

#[test]
fn dll_remove_links_neighbours() {
    let mut l: DoublyLinkedList<JobInfo> = DoublyLinkedList::new();
    for i in 1..=4 {
        l.push_back(job(i, "x"));
    }
    assert_eq!(l.remove(&2).unwrap().job_id, 2);
    assert_eq!(l.ids(), vec![1, 3, 4]);
    assert_eq!(l.get_node(&1).unwrap().next, Some(3));
    assert_eq!(l.get_node(&3).unwrap().prev, Some(1));
    assert!(l.remove(&2).is_none());
    assert_eq!(l.remove(&1).unwrap().job_id, 1);
    assert_eq!(l.head, Some(3));
    assert_eq!(l.get_node(&3).unwrap().prev, None);
    assert_eq!(l.remove(&4).unwrap().job_id, 4);
    assert_eq!(l.tail, Some(3));
    assert_eq!(l.ids(), vec![3]);
}

#[test]
fn dll_pops_and_gets() {
    let mut l: DoublyLinkedList<JobInfo> = DoublyLinkedList::new();
    assert!(l._pop_front().is_none());
    assert!(l._pop_back().is_none());
    l.push_back(job(5, "five"));
    l.push_back(job(6, "six"));
    l.push_back(job(7, "seven"));
    assert_eq!(l._get(&6).unwrap().command, "six");
    l._get_mut(&6).unwrap().command = "SIX".to_string();
    assert_eq!(l._get(&6).unwrap().command, "SIX");
    l.get_node_mut(&7).unwrap().value.command = "SEVEN".to_string();
    assert_eq!(l._pop_back().unwrap().command, "SEVEN");
    assert_eq!(l._pop_front().unwrap().job_id, 5);
    assert_eq!(l.ids(), vec![6]);
    assert_eq!(l._pop_front().unwrap().job_id, 6);
    assert!(l._is_empty());
    assert_eq!(l.tail, None);
}

#[test]
fn node_new_has_no_neighbours() {
    let n = Node::new(job(1, "a"));
    assert_eq!(n.prev, None);
    assert_eq!(n.next, None);
    assert_eq!(job(4, "z").id(), 4);
}
