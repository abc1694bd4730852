//! Task records and the parsing/validation of a creation request.
//!
//! A creation request is one line shaped `YYYY-MM-DD <title>`: after trimming,
//! ten date characters (month digits `00`-`19`, day digits `00`-`39`), one
//! whitespace separator, then a title of 1 to 50 characters from the allowed
//! class. The digit shape only narrows the date; whether the day exists on
//! the calendar is decided by the calendar library.

use vstd::prelude::*;

use crate::dates::{iso_date_of, iso_seq, iso_shape_ok, Date};
use crate::text::{check_digit, check_space, check_title_char, digit_value, is_digit, is_space,
    is_title_char, trim, trim_str};
use crate::todo_error::{corrupt_store_error, corrupt_store_msg, invalid_format_msg,
    validation_error, TodoError};

verus! {

/// A title is 1 to 50 characters, each from the allowed class.
pub open spec fn title_wf(t: Seq<char>) -> bool {
    &&& 1 <= t.len() <= 50
    &&& forall|i: int| 0 <= i < t.len() ==> is_title_char(t[i])
}

/// The trimmed request has the `YYYY-MM-DD <title>` digit shape.
pub open spec fn req_shape_ok(t: Seq<char>) -> bool {
    &&& 12 <= t.len() <= 61
    &&& is_digit(t[0]) && is_digit(t[1]) && is_digit(t[2]) && is_digit(t[3])
    &&& t[4] == '-'
    &&& (t[5] == '0' || t[5] == '1')
    &&& is_digit(t[6])
    &&& t[7] == '-'
    &&& (t[8] == '0' || t[8] == '1' || t[8] == '2' || t[8] == '3')
    &&& is_digit(t[9])
    &&& is_space(t[10])
    &&& forall|i: int| 11 <= i < t.len() ==> is_title_char(t[i])
}

pub open spec fn req_date(t: Seq<char>) -> Date {
    iso_date_of(t.subrange(0, 10))
}

pub open spec fn req_title(t: Seq<char>) -> Seq<char> {
    t.subrange(11, t.len() as int)
}

/// A creation request is accepted exactly when it has the shape and its date
/// exists on the calendar.
pub open spec fn req_ok(t: Seq<char>) -> bool {
    req_shape_ok(t) && req_date(t).wf()
}

/// One todo entry: stable identifier, title, due date, completion flag.
pub struct TodoItem {
    pub id: usize,
    pub title: String,
    pub due_date: Date,
    pub complete: bool,
}

/// The mathematical content of a task record.
pub ghost struct ItemModel {
    pub id: nat,
    pub title: Seq<char>,
    pub due_date: Date,
    pub complete: bool,
}

impl View for TodoItem {
    type V = ItemModel;

    open spec fn view(&self) -> ItemModel {
        ItemModel {
            id: self.id as nat,
            title: self.title@,
            due_date: self.due_date,
            complete: self.complete,
        }
    }
}

/// A record is well formed when its title and its date are.
pub open spec fn item_wf(m: ItemModel) -> bool {
    &&& title_wf(m.title)
    &&& m.due_date.wf()
}

impl Clone for TodoItem {
    fn clone(&self) -> (res: Self)
        ensures
            res == *self,
    {
        TodoItem {
            id: self.id,
            title: self.title.clone(),
            due_date: self.due_date,
            complete: self.complete,
        }
    }
}

/// The record a plain text form of one task carries: the due date as its
/// `YYYY-MM-DD` text.
pub struct TodoItemSerializable {
    pub id: usize,
    pub title: String,
    pub due_date: String,
    pub complete: bool,
}

impl TodoItem {
    /// Parses and validates a creation request, giving the new record the
    /// identifier `id`. Rejected requests leave a `ValidationError` whose
    /// message is `invalid_format_msg()`.
    pub fn new(args: String, id: usize) -> (r: Result<TodoItem, TodoError>)
        ensures
            r is Ok <==> req_ok(trim(args@)),
            r is Ok ==> r->Ok_0.id == id && r->Ok_0.title@ == req_title(trim(args@))
                && r->Ok_0.due_date == req_date(trim(args@)) && r->Ok_0.complete == false,
            r is Err ==> r->Err_0.message@ == invalid_format_msg(),
    {
        let t = trim_str(args.as_str());
        let ghost tv = t@;
        let len = t.unicode_len();
        if len < 12 || len > 61 {
            return Err(validation_error());
        }
        let ok_shape = check_digit(t.get_char(0)) && check_digit(t.get_char(1)) && check_digit(
            t.get_char(2),
        ) && check_digit(t.get_char(3)) && t.get_char(4) == '-' && (t.get_char(5) == '0'
            || t.get_char(5) == '1') && check_digit(t.get_char(6)) && t.get_char(7) == '-' && (
        t.get_char(8) == '0' || t.get_char(8) == '1' || t.get_char(8) == '2' || t.get_char(8)
            == '3') && check_digit(t.get_char(9)) && check_space(t.get_char(10));
        if !ok_shape {
            return Err(validation_error());
        }
        let mut i: usize = 11;
        while i < len
            invariant
                11 <= i <= len,
                len == tv.len(),
                tv == t@,
                tv == trim(args@),
                forall|k: int| 11 <= k < i ==> is_title_char(tv[k]),
            decreases len - i,
        {
            if !check_title_char(t.get_char(i)) {
                proof {
                    assert(!is_title_char(tv[i as int]));
                    assert(!req_shape_ok(tv));
                }
                return Err(validation_error());
            }
            i = i + 1;
        }
        assert(req_shape_ok(tv));
        let year = digit_value(t.get_char(0)) * 1000 + digit_value(t.get_char(1)) * 100
            + digit_value(t.get_char(2)) * 10 + digit_value(t.get_char(3));
        let month = digit_value(t.get_char(5)) * 10 + digit_value(t.get_char(6));
        let day = digit_value(t.get_char(8)) * 10 + digit_value(t.get_char(9));
        proof {
            assert(req_date(tv) == (Date { year, month, day }));
        }
        let due_date = match Date::new(year, month, day) {
            Some(d) => d,
            None => {
                return Err(validation_error());
            },
        };
        let title_slice = t.substring_char(11, len);
        let title = title_slice.to_owned();
        Ok(TodoItem { id, title, due_date, complete: false })
    }

    /// Reads a record back from its plain text form; a date that is not a
    /// well-shaped existing calendar day reports the store corrupted.
    pub fn deserialize(dto: TodoItemSerializable) -> (r: Result<TodoItem, TodoError>)
        ensures
            r is Ok <==> (iso_shape_ok(dto.due_date@) && iso_date_of(dto.due_date@).wf()),
            r is Ok ==> r->Ok_0.id == dto.id && r->Ok_0.title@ == dto.title@
                && r->Ok_0.due_date == iso_date_of(dto.due_date@) && r->Ok_0.complete
                == dto.complete,
            r is Err ==> r->Err_0.message@ == corrupt_store_msg(),
    {
        let s = dto.due_date.as_str();
        if s.unicode_len() != 10 {
            proof {
                assert(!iso_shape_ok(dto.due_date@));
            }
            return Err(corrupt_store_error());
        }
        assert(s@.subrange(0, 10) =~= s@);
        match crate::dates::parse_iso_at(s, 0) {
            Some(d) => Ok(
                TodoItem { id: dto.id, title: dto.title, due_date: d, complete: dto.complete },
            ),
            None => Err(corrupt_store_error()),
        }
    }

    /// Completion is a one-way transition; re-marking keeps the record
    /// complete.
    pub fn mark_as_done(&mut self)
        ensures
            final(self).id == old(self).id,
            final(self).title == old(self).title,
            final(self).due_date == old(self).due_date,
            final(self).complete == true,
    {
        self.complete = true;
    }

    /// The plain text form of this record, its date written `YYYY-MM-DD`.
    pub fn to_serializable(&self) -> (dto: TodoItemSerializable)
        requires
            self.due_date.wf(),
        ensures
            dto.id == self.id,
            dto.title@ == self.title@,
            dto.due_date@ == iso_seq(self.due_date),
            dto.complete == self.complete,
    {
        TodoItemSerializable {
            id: self.id,
            title: self.title.clone(),
            due_date: crate::dates::date_to_iso(&self.due_date),
            complete: self.complete,
        }
    }
}

/// An accepted request's record is well formed.
pub proof fn lemma_req_item_wf(t: Seq<char>)
    requires
        req_ok(t),
    ensures
        title_wf(req_title(t)),
        req_date(t).wf(),
{
    assert forall|i: int| 0 <= i < req_title(t).len() implies is_title_char(req_title(t)[i]) by {
        assert(req_title(t)[i] == t[i + 11]);
    }
}

} // verus!
