use vstd::prelude::*;

verus! {

/// One extracted configuration entry: a dotted key and its string value.
#[derive(Clone, Debug)]
pub struct Record {
    pub key: String,
    pub value: String,
}

impl View for Record {
    type V = (Seq<char>, Seq<char>);

    open spec fn view(&self) -> (Seq<char>, Seq<char>) {
        (self.key@, self.value@)
    }
}

impl PartialEq for Record {
    fn eq(&self, o: &Record) -> (r: bool)
        ensures
            r == (self@ == o@),
    {
        self.key == o.key && self.value == o.value
    }
}

impl vstd::std_specs::cmp::PartialEqSpecImpl for Record {
    open spec fn obeys_eq_spec() -> bool {
        true
    }

    open spec fn eq_spec(&self, o: &Record) -> bool {
        self@ == o@
    }
}

/// The view of every record of a sequence, in order.
pub open spec fn records_view(v: Seq<Record>) -> Seq<(Seq<char>, Seq<char>)> {
    v.map_values(|r: Record| r@)
}

} // verus!
