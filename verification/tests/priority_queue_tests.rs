use std::cmp::Ordering;

use data_structures::priority_queue::PriorityQueue;

#[derive(Clone, Copy, Debug, PartialEq)]
struct Message {
    text: &'static str,
    priority: usize,
}

impl PartialOrd for Message {
    fn partial_cmp(&self, other: &Message) -> Option<Ordering> {
        self.priority.partial_cmp(&other.priority)
    }
}

impl Message {
    fn new(text: &'static str, priority: usize) -> Message {
        Message { text, priority }
    }
}

#[test]
#[allow(non_snake_case)]
fn testEmpty() {
    let mut queue: PriorityQueue<Message> = PriorityQueue::new();

    assert!(queue.is_empty());
    assert_eq!(queue.count(), 0);
    assert_eq!(queue.peek(), None);
    assert_eq!(queue.dequeue(), None);
}

#[test]
#[allow(non_snake_case)]
fn testOneElement() {
    let mut queue: PriorityQueue<Message> = PriorityQueue::new();

    queue.enqueue(Message::new("Zach", 12));
    assert!(!queue.is_empty());
    assert_eq!(queue.count(), 1);
    assert_eq!(queue.peek(), Some(Message::new("Zach", 12)));

    let result = queue.dequeue();
    assert!(queue.is_empty());
    assert_eq!(queue.count(), 0);
    assert_eq!(queue.peek(), None);
    assert_eq!(result, Some(Message::new("Zach", 12)));
}

#[test]
#[allow(non_snake_case)]
fn testTwoElement() {
    let mut queue: PriorityQueue<Message> = PriorityQueue::new();

    queue.enqueue(Message::new("Zach", 12));
    queue.enqueue(Message::new("Zach2", 13));

    assert!(!queue.is_empty());
    assert_eq!(queue.count(), 2);
    assert_eq!(queue.peek(), Some(Message::new("Zach2", 13)));

    let mut result = queue.dequeue();
    assert_eq!(result, Some(Message::new("Zach2", 13)));
    assert!(!queue.is_empty());
    assert_eq!(queue.count(), 1);
    assert_eq!(queue.peek(), Some(Message::new("Zach", 12)));

    result = queue.dequeue();
    assert_eq!(result, Some(Message::new("Zach", 12)));
    assert!(queue.is_empty());
    assert_eq!(queue.count(), 0);
    assert_eq!(queue.peek(), None);
}

#[test]
#[allow(non_snake_case)]
fn testOutOfOrder() {
    let mut queue: PriorityQueue<Message> = PriorityQueue::new();

    queue.enqueue(Message::new("Zach2", 13));
    queue.enqueue(Message::new("Zach", 12));

    assert!(!queue.is_empty());
    assert_eq!(queue.count(), 2);
    assert_eq!(queue.peek(), Some(Message::new("Zach2", 13)));

    let mut result = queue.dequeue();
    assert_eq!(result, Some(Message::new("Zach2", 13)));
    assert!(!queue.is_empty());
    assert_eq!(queue.count(), 1);
    assert_eq!(queue.peek(), Some(Message::new("Zach", 12)));

    result = queue.dequeue();
    assert_eq!(result, Some(Message::new("Zach", 12)));
    assert!(queue.is_empty());
    assert_eq!(queue.count(), 0);
    assert_eq!(queue.peek(), None);
}
