//! The applications linked into the kernel image: their names, stored one
//! after another with a NUL byte after each, and the table of their start
//! addresses, which ends with the end of the last one.
use vstd::prelude::*;

verus! {

/// The position of the first NUL byte of `blob` at or after `from`, or the
/// length of `blob` when there is none.
pub open spec fn next_nul(blob: Seq<u8>, from: int) -> int
    decreases blob.len() - from,
{
    if from < 0 || from >= blob.len() {
        blob.len() as int
    } else if blob[from] == 0 {
        from
    } else {
        next_nul(blob, from + 1)
    }
}

/// The `n` NUL-terminated names stored in `blob` from position `from` on.
pub open spec fn names_at(blob: Seq<u8>, from: int, n: nat) -> Seq<Seq<u8>>
    decreases n,
{
    if n == 0 {
        Seq::empty()
    } else {
        let e = next_nul(blob, from);
        seq![blob.subrange(from, e)] + names_at(blob, e + 1, (n - 1) as nat)
    }
}

/// Whether `blob` holds `n` NUL-terminated names from position `from` on.
pub open spec fn holds_names(blob: Seq<u8>, from: int, n: nat) -> bool
    decreases n,
{
    n == 0 || {
        let e = next_nul(blob, from);
        &&& 0 <= from
        &&& e < blob.len()
        &&& holds_names(blob, e + 1, (n - 1) as nat)
    }
}

/// When no byte of `[from, e)` is NUL and byte `e` is, `e` is the next NUL
/// from `from`.
proof fn lemma_next_nul(blob: Seq<u8>, from: int, e: int)
    requires
        0 <= from <= e < blob.len(),
        blob[e] == 0,
        forall|j: int| from <= j < e ==> blob[j] != 0,
    ensures
        next_nul(blob, from) == e,
    decreases e - from,
{
    if from < e {
        lemma_next_nul(blob, from + 1, e);
    }
}

/// The next NUL from `from` is at or after `from`, and is a NUL when it is
/// inside `blob`.
proof fn lemma_next_nul_found(blob: Seq<u8>, from: int)
    requires
        0 <= from,
    ensures
        from <= next_nul(blob, from) || from >= blob.len(),
        next_nul(blob, from) < blob.len() ==> blob[next_nul(blob, from)] == 0,
    decreases blob.len() - from,
{
    if from < blob.len() && blob[from] != 0 {
        lemma_next_nul_found(blob, from + 1);
    }
}

/// The names of the `num_app` applications, read from `blob`, where each is
/// followed by a NUL byte.
pub fn app_names(blob: &[u8], num_app: usize) -> (names: Vec<Vec<u8>>)
    requires
        holds_names(blob@, 0, num_app as nat),
    ensures
        names.deep_view() == names_at(blob@, 0, num_app as nat),
{
    let mut names: Vec<Vec<u8>> = Vec::new();
    let mut start: usize = 0;
    let mut k: usize = 0;
    while k < num_app
        invariant
            k <= num_app,
            start <= blob@.len(),
            holds_names(blob@, start as int, (num_app - k) as nat),
            names_at(blob@, 0, num_app as nat) == names.deep_view() + names_at(blob@, start as int, (num_app - k) as nat),
        decreases num_app - k,
    {
        let ghost e = next_nul(blob@, start as int);
        proof {
            lemma_next_nul_found(blob@, start as int);
        }
        let mut end: usize = start;
        while blob[end] != 0
            invariant
                start <= end <= e,
                e < blob@.len(),
                blob@[e] == 0,
                forall|j: int| start <= j < end ==> blob@[j] != 0,
            decreases e - end,
        {
            end = end + 1;
        }
        proof {
            lemma_next_nul(blob@, start as int, end as int);
        }
        let name = slice_to_vec(blob, start, end);
        proof {
            assert(name.deep_view() =~= name@);
        }
        let ghost before = names.deep_view();
        names.push(name);
        proof {
            let rest = names_at(blob@, (e + 1) as int, (num_app - k - 1) as nat);
            assert(names.deep_view() =~= before.push(blob@.subrange(start as int, end as int)));
            assert(names_at(blob@, start as int, (num_app - k) as nat) == seq![blob@.subrange(start as int, e)] + rest);
            assert(before + (seq![blob@.subrange(start as int, e)] + rest) =~= names.deep_view() + rest);
        }
        start = end + 1;
        k = k + 1;
    }
    proof {
        assert(names.deep_view() + Seq::<Seq<u8>>::empty() =~= names.deep_view());
    }
    names
}

/// A copy of `blob[from..to]`.
pub(crate) fn slice_to_vec(blob: &[u8], from: usize, to: usize) -> (v: Vec<u8>)
    requires
        from <= to <= blob@.len(),
    ensures
        v@ == blob@.subrange(from as int, to as int),
{
    let mut v: Vec<u8> = Vec::new();
    let mut i: usize = from;
    while i < to
        invariant
            from <= i <= to,
            to <= blob@.len(),
            v@ == blob@.subrange(from as int, i as int),
        decreases to - i,
    {
        v.push(blob[i]);
        proof {
            assert(v@ =~= blob@.subrange(from as int, i + 1));
        }
        i = i + 1;
    }
    v
}

/// Where application `app_id` lies: its start address and length, from the
/// table of start addresses `app_start`, which holds one more entry than
/// there are applications.
pub fn get_app_data(app_start: &[usize], app_id: usize) -> (data: (usize, usize))
    requires
        app_id + 1 < app_start@.len(),
        app_start@[app_id as int] <= app_start@[app_id + 1],
    ensures
        data == (app_start@[app_id as int], (app_start@[app_id + 1] - app_start@[app_id as int]) as usize),
{
    (app_start[app_id], app_start[app_id + 1] - app_start[app_id])
}

/// Where the first application named `name` lies, as `get_app_data` gives
/// it; `None` when no application has that name.
pub fn get_app_data_by_name(names: &Vec<Vec<u8>>, app_start: &[usize], name: &[u8]) -> (data: Option<(usize, usize)>)
    requires
        names@.len() + 1 == app_start@.len(),
        forall|i: int| 0 <= i < names@.len() ==> app_start@[i] <= #[trigger] app_start@[i + 1],
    ensures
        data is None <==> !names.deep_view().contains(name@),
        data matches Some(d) ==> exists|i: int| {
            &&& 0 <= i < names@.len()
            &&& #[trigger] names.deep_view()[i] == name@
            &&& forall|j: int| 0 <= j < i ==> names.deep_view()[j] != name@
            &&& d == (app_start@[i], (app_start@[i + 1] - app_start@[i]) as usize)
        },
{
    let mut i: usize = 0;
    while i < names.len()
        invariant
            i <= names@.len(),
            names@.len() + 1 == app_start@.len(),
            forall|i: int| 0 <= i < names@.len() ==> app_start@[i] <= #[trigger] app_start@[i + 1],
            forall|j: int| 0 <= j < i ==> names.deep_view()[j] != name@,
        decreases names@.len() - i,
    {
        if bytes_equal(names[i].as_slice(), name) {
            proof {
                assert(names.deep_view()[i as int] == names@[i as int]@);
                assert(app_start@[i as int] <= app_start@[i + 1]);
            }
            return Some(get_app_data(app_start, i));
        }
        proof {
            assert(names.deep_view()[i as int] == names@[i as int]@);
        }
        i = i + 1;
    }
    proof {
        assert forall|j: int| 0 <= j < names.deep_view().len() implies names.deep_view()[j] != name@ by {}
    }
    None
}

/// Whether `a` and `b` hold the same bytes.
fn bytes_equal(a: &[u8], b: &[u8]) -> (r: bool)
    ensures
        r == (a@ == b@),
{
    if a.len() != b.len() {
        return false;
    }
    let mut i: usize = 0;
    while i < a.len()
        invariant
            i <= a@.len(),
            a@.len() == b@.len(),
            forall|j: int| 0 <= j < i ==> a@[j] == b@[j],
        decreases a@.len() - i,
    {
        if a[i] != b[i] {
            return false;
        }
        i = i + 1;
    }
    proof {
        assert(a@ =~= b@);
    }
    true
}

} // verus!
