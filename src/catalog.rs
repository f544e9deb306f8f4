use vstd::prelude::*;

use crate::text::chars_of;
use crate::text::same_chars;

verus! {

/// The recognised foreign API names, in their fixed order.
pub open spec fn catalog() -> Seq<Seq<char>> {
    seq![
        "CreateFileA"@,
        "ReadFile"@,
        "WriteFile"@,
        "CloseHandle"@,
        "MessageBoxA"@,
        "VirtualAlloc"@,
        "VirtualFree"@,
        "GetLastError"@,
        "SetLastError"@,
        "ExitProcess"@,
        "GetCurrentProcess"@,
        "Sleep"@,
        "GetTickCount"@,
        "GetModuleHandle"@,
        "GetProcAddress"@,
        "LoadLibrary"@,
        "FreeLibrary"@,
        "SendInput"@,
        "mouse_event"@,
        "keybd_event"@,
        "GetCursorPos"@,
        "SetCursorPos"@,
        "GetAsyncKeyState"@,
        "GetKeyState"@,
        "MapVirtualKey"@,
        "ShowCursor"@,
        "ClipCursor"@,
        "CreateThread"@,
        "WaitForSingleObject"@,
        "CreateEvent"@,
        "SetEvent"@,
        "ResetEvent"@,
        "QueryPerformanceCounter"@,
        "QueryPerformanceFrequency"@,
        "GetSystemTime"@,
        "GetLocalTime"@,
    ]
}

pub open spec fn in_catalog(name: Seq<char>) -> bool {
    catalog().contains(name)
}

/// The catalog's names, in catalog order.
pub fn catalog_names() -> (r: Vec<&'static str>)
    ensures
        r@.len() == catalog().len(),
        forall|i: int| 0 <= i < r@.len() ==> #[trigger] r@[i]@ == catalog()[i],
{
    let v = vec![
        "CreateFileA",
        "ReadFile",
        "WriteFile",
        "CloseHandle",
        "MessageBoxA",
        "VirtualAlloc",
        "VirtualFree",
        "GetLastError",
        "SetLastError",
        "ExitProcess",
        "GetCurrentProcess",
        "Sleep",
        "GetTickCount",
        "GetModuleHandle",
        "GetProcAddress",
        "LoadLibrary",
        "FreeLibrary",
        "SendInput",
        "mouse_event",
        "keybd_event",
        "GetCursorPos",
        "SetCursorPos",
        "GetAsyncKeyState",
        "GetKeyState",
        "MapVirtualKey",
        "ShowCursor",
        "ClipCursor",
        "CreateThread",
        "WaitForSingleObject",
        "CreateEvent",
        "SetEvent",
        "ResetEvent",
        "QueryPerformanceCounter",
        "QueryPerformanceFrequency",
        "GetSystemTime",
        "GetLocalTime",
    ];
    assert(v@.len() == catalog().len());
    v
}

/// The catalog's names as character vectors, in catalog order.
pub fn catalog_chars() -> (r: Vec<Vec<char>>)
    ensures
        r@.len() == catalog().len(),
        forall|i: int| 0 <= i < r@.len() ==> #[trigger] r@[i]@ == catalog()[i],
{
    let names = catalog_names();
    let mut out: Vec<Vec<char>> = Vec::new();
    let mut i: usize = 0;
    while i < names.len()
        invariant
            i <= names.len(),
            names@.len() == catalog().len(),
            forall|k: int| 0 <= k < names@.len() ==> #[trigger] names@[k]@ == catalog()[k],
            out@.len() == i,
            forall|k: int| 0 <= k < i ==> #[trigger] out@[k]@ == catalog()[k],
        decreases names.len() - i,
    {
        out.push(chars_of(names[i]));
        i += 1;
    }
    out
}

/// Whether `name` is one of the catalog's names.
pub fn is_catalog_name(name: &[char]) -> (r: bool)
    ensures
        r == in_catalog(name@),
{
    let names = catalog_chars();
    let mut i: usize = 0;
    while i < names.len()
        invariant
            i <= names.len(),
            names@.len() == catalog().len(),
            forall|k: int| 0 <= k < names@.len() ==> #[trigger] names@[k]@ == catalog()[k],
            forall|k: int| 0 <= k < i ==> catalog()[k] != name@,
        decreases names.len() - i,
    {
        if same_chars(names[i].as_slice(), name) {
            assert(catalog()[i as int] == name@);
            return true;
        }
        i += 1;
    }
    proof {
        if catalog().contains(name@) {
            let k = catalog().index_of(name@);
            assert(catalog()[k] != name@);
        }
    }
    false
}

/// A name made of ASCII letters, digits and underscores only.
pub open spec fn plain_name(s: Seq<char>) -> bool {
    forall|j: int|
        0 <= j < s.len() ==> ('a' <= #[trigger] s[j] <= 'z') || ('A' <= s[j] <= 'Z') || ('0'
            <= s[j] <= '9') || s[j] == '_'
}

/// Every catalog name is made of letters, digits and underscores.
pub proof fn lemma_catalog_names_plain()
    ensures
        forall|i: int| 0 <= i < catalog().len() ==> plain_name(#[trigger] catalog()[i]),
{
    reveal_strlit("CreateFileA");
    reveal_strlit("ReadFile");
    reveal_strlit("WriteFile");
    reveal_strlit("CloseHandle");
    reveal_strlit("MessageBoxA");
    reveal_strlit("VirtualAlloc");
    reveal_strlit("VirtualFree");
    reveal_strlit("GetLastError");
    reveal_strlit("SetLastError");
    reveal_strlit("ExitProcess");
    reveal_strlit("GetCurrentProcess");
    reveal_strlit("Sleep");
    reveal_strlit("GetTickCount");
    reveal_strlit("GetModuleHandle");
    reveal_strlit("GetProcAddress");
    reveal_strlit("LoadLibrary");
    reveal_strlit("FreeLibrary");
    reveal_strlit("SendInput");
    reveal_strlit("mouse_event");
    reveal_strlit("keybd_event");
    reveal_strlit("GetCursorPos");
    reveal_strlit("SetCursorPos");
    reveal_strlit("GetAsyncKeyState");
    reveal_strlit("GetKeyState");
    reveal_strlit("MapVirtualKey");
    reveal_strlit("ShowCursor");
    reveal_strlit("ClipCursor");
    reveal_strlit("CreateThread");
    reveal_strlit("WaitForSingleObject");
    reveal_strlit("CreateEvent");
    reveal_strlit("SetEvent");
    reveal_strlit("ResetEvent");
    reveal_strlit("QueryPerformanceCounter");
    reveal_strlit("QueryPerformanceFrequency");
    reveal_strlit("GetSystemTime");
    reveal_strlit("GetLocalTime");
    assert(plain_name("CreateFileA"@));
    assert(plain_name("ReadFile"@));
    assert(plain_name("WriteFile"@));
    assert(plain_name("CloseHandle"@));
    assert(plain_name("MessageBoxA"@));
    assert(plain_name("VirtualAlloc"@));
    assert(plain_name("VirtualFree"@));
    assert(plain_name("GetLastError"@));
    assert(plain_name("SetLastError"@));
    assert(plain_name("ExitProcess"@));
    assert(plain_name("GetCurrentProcess"@));
    assert(plain_name("Sleep"@));
    assert(plain_name("GetTickCount"@));
    assert(plain_name("GetModuleHandle"@));
    assert(plain_name("GetProcAddress"@));
    assert(plain_name("LoadLibrary"@));
    assert(plain_name("FreeLibrary"@));
    assert(plain_name("SendInput"@));
    assert(plain_name("mouse_event"@));
    assert(plain_name("keybd_event"@));
    assert(plain_name("GetCursorPos"@));
    assert(plain_name("SetCursorPos"@));
    assert(plain_name("GetAsyncKeyState"@));
    assert(plain_name("GetKeyState"@));
    assert(plain_name("MapVirtualKey"@));
    assert(plain_name("ShowCursor"@));
    assert(plain_name("ClipCursor"@));
    assert(plain_name("CreateThread"@));
    assert(plain_name("WaitForSingleObject"@));
    assert(plain_name("CreateEvent"@));
    assert(plain_name("SetEvent"@));
    assert(plain_name("ResetEvent"@));
    assert(plain_name("QueryPerformanceCounter"@));
    assert(plain_name("QueryPerformanceFrequency"@));
    assert(plain_name("GetSystemTime"@));
    assert(plain_name("GetLocalTime"@));
}

/// A catalog name is made of letters, digits and underscores.
pub proof fn lemma_catalog_name_plain(f: Seq<char>)
    requires
        in_catalog(f),
    ensures
        plain_name(f),
{
    lemma_catalog_names_plain();
    let i = catalog().index_of(f);
    assert(plain_name(catalog()[i]));
}

} // verus!
