use support_crates::derivation_tree::linked_list::{Link, LinkedList};

struct VecCursorMut<'a, T> {
    vec: &'a mut Vec<T>,
    pos: usize,
}

#[derive(Debug, Clone)]
enum CursorCommand<T> {
    MoveNext,
    MovePrev,
    InsertBefore(T),
    InsertAfter(T),
    Get,
}

impl<'a, T> VecCursorMut<'a, T> {
    fn move_next(&mut self) -> bool {
        if self.pos == self.vec.len() {
            false
        } else {
            self.pos += 1;
            true
        }
    }

    fn move_prev(&mut self) -> bool {
        if self.pos == 0 {
            false
        } else {
            self.pos -= 1;
            true
        }
    }

    fn insert_before(&mut self, value: T) {
        self.vec.insert(self.pos, value);
    }

    fn insert_after(&mut self, value: T) {
        if self.pos == self.vec.len() {
            self.vec.insert(self.pos, value);
        } else {
            self.vec.insert(self.pos + 1, value);
        }
    }

    fn get(&self) -> Option<&T> {
        self.vec.get(self.pos)
    }
}

fn commands_equal_for_cursors<T: std::fmt::Debug + Clone>(commands: &[CursorCommand<T>]) {
    let mut vec_cursor = VecCursorMut { vec: &mut Vec::new(), pos: 0 };
    let mut list = LinkedList::new();
    let mut list_cursor = list.front_mut();
    println!("commands: {:?}", commands);

    for command in commands.iter() {
        match command {
            CursorCommand::MoveNext => {
                vec_cursor.move_next();
                list_cursor.move_next(&list);
            }
            CursorCommand::MovePrev => {
                vec_cursor.move_prev();
                list_cursor.move_prev(&list);
            }
            CursorCommand::InsertBefore(t) => {
                vec_cursor.insert_before(t.clone());
                list_cursor.insert_before(&mut list, Link::new(t.clone()));
            }
            CursorCommand::InsertAfter(t) => {
                vec_cursor.insert_after(t.clone());
                list_cursor.insert_after(&mut list, Link::new(t.clone()));
            }
            CursorCommand::Get => match (vec_cursor.get(), list_cursor.get(&list)) {
                (None, None) => {}
                (Some(_), Some(_)) => {}
                _ => panic!("uneven get, commands: {:?}", commands),
            },
        }
    }
}

#[test]
fn can_append_list() {
    let mut list: LinkedList<u32> = LinkedList::new();
    let link = Link::new(1);
    list.insert_front(link);
    assert_eq!(list.len(), 1);
}

#[test]
fn can_append_list_back() {
    let mut list: LinkedList<u32> = LinkedList::new();
    let link = Link::new(1);
    list.insert_back(link);
    assert_eq!(list.len(), 1);
}

#[test]
fn empty_list_can_create_cursor() {
    let list: LinkedList<u32> = LinkedList::new();
    let cursor = list.front();
    assert!(cursor.get(&list).is_none());
}

#[test]
fn singleton_list_can_create_cursor() {
    let mut list: LinkedList<u32> = LinkedList::new();
    let linka = Link::new(1);
    let linkb = Link::new(2);
    list.insert_back(linka);
    list.insert_back(linkb);
    let mut cursor = list.front();
    assert_eq!(*cursor.get(&list).unwrap(), 1);
    cursor.move_next(&list);
    assert_eq!(*cursor.get(&list).unwrap(), 2);
    cursor.move_prev(&list);
    assert_eq!(*cursor.get(&list).unwrap(), 1);
}

#[test]
fn can_recover_link() {
    let mut list = LinkedList::new();
    let linka = Link::new(1);
    let linkb = Link::new(2);
    {
        list.insert_back(linka);
        list.insert_back(linkb);
        drop(list);
    }
}

#[test]
fn unsound_list() {
    let mut list = LinkedList::new();
    let linka = Link::new(1);
    list.insert_back(linka);
    assert_eq!(list.len(), 1);
}

#[test]
fn can_collect_iter() {
    let mut list = LinkedList::new();
    let linka = Link::new(0);
    let linkb = Link::new(1);
    list.insert_back(linka);
    list.insert_back(linkb);

    let refs: Vec<_> = list.iter();
    assert_eq!(refs.len(), 2);
    for (idx, r) in refs.into_iter().enumerate() {
        assert_eq!(idx, *r as usize);
    }
}

#[test]
fn test_eq_fail() {
    let commands = [CursorCommand::InsertAfter(2), CursorCommand::InsertBefore(3)];
    for i in 0..commands.len() {
        commands_equal_for_cursors(&commands[0..=i]);
    }
}

#[test]
fn cursor_commands_agree_with_a_vector() {
    let commands = [
        CursorCommand::InsertAfter(1),
        CursorCommand::Get,
        CursorCommand::InsertAfter(3),
        CursorCommand::InsertBefore(0),
        CursorCommand::MoveNext,
        CursorCommand::Get,
        CursorCommand::MovePrev,
        CursorCommand::Get,
    ];
    commands_equal_for_cursors(&commands);
    let mut list = LinkedList::new();
    let mut cursor = list.front_mut();
    cursor.insert_after(&mut list, Link::new(1));
    cursor.insert_after(&mut list, Link::new(3));
    cursor.insert_before(&mut list, Link::new(0));
    cursor.move_next(&list);
    cursor.insert_before(&mut list, Link::new(2));
    let values: Vec<i32> = list.iter().into_iter().copied().collect();
    assert_eq!(values, vec![0, 1, 2, 3]);
}
