//! Payload inspection: byte-pattern scanning for request filtering,
//! known-bad signatures for static analysis, and the small checks the
//! request handlers run before doing real work.

use vstd::prelude::*;

use crate::strutil::str_eq;

verus! {

/// Whether `p` occurs in `h` starting at position `i`.
pub open spec fn matches_at(h: Seq<u8>, p: Seq<u8>, i: int) -> bool {
    0 <= i && i + p.len() <= h.len() && h.subrange(i, i + p.len()) == p
}

/// Whether `p` occurs anywhere in `h`.
pub open spec fn contains_pattern(h: Seq<u8>, p: Seq<u8>) -> bool {
    exists|i: int| matches_at(h, p, i)
}

/// Whether `p` occurs anywhere in `h`.
pub fn find_pattern(h: &[u8], p: &[u8]) -> (r: bool)
    ensures
        r == contains_pattern(h@, p@),
{
    let np = p.len();
    let nh = h.len();
    if np == 0 {
        proof {
            assert(h@.subrange(0, 0) =~= p@);
            assert(matches_at(h@, p@, 0));
        }
        return true;
    }
    if np > nh {
        proof {
            assert forall|i: int| !matches_at(h@, p@, i) by {}
        }
        return false;
    }
    let mut i: usize = 0;
    while i <= nh - np
        invariant
            1 <= np <= nh == h@.len(),
            np == p@.len(),
            i <= nh - np + 1,
            forall|k: int| 0 <= k < i ==> !matches_at(h@, p@, k),
        decreases nh - np + 1 - i,
    {
        let mut j: usize = 0;
        let mut hit = true;
        while j < np
            invariant
                i + np <= nh == h@.len(),
                np == p@.len(),
                j <= np,
                hit ==> forall|k: int| 0 <= k < j ==> h@[i + k] == p@[k],
                !hit ==> !matches_at(h@, p@, i as int),
            decreases np - j,
        {
            if h[i + j] != p[j] {
                proof {
                    if matches_at(h@, p@, i as int) {
                        assert(h@.subrange(i as int, i + p@.len())[j as int] == p@[j as int]);
                    }
                }
                hit = false;
            }
            j += 1;
        }
        if hit {
            proof {
                assert(h@.subrange(i as int, i + p@.len()) =~= p@);
                assert(matches_at(h@, p@, i as int));
            }
            return true;
        }
        i += 1;
    }
    proof {
        assert forall|k: int| !matches_at(h@, p@, k) by {
            if 0 <= k <= h@.len() - p@.len() {
                assert(!matches_at(h@, p@, k));
            }
        }
    }
    false
}

/// The SQL-injection probe `DROP TABLE`.
pub open spec fn pat_drop_table() -> Seq<u8> {
    seq![
        'D' as u8,
        'R' as u8,
        'O' as u8,
        'P' as u8,
        ' ' as u8,
        'T' as u8,
        'A' as u8,
        'B' as u8,
        'L' as u8,
        'E' as u8,
    ]
}

/// The script-injection probe `<script>`.
pub open spec fn pat_script() -> Seq<u8> {
    seq![
        '<' as u8,
        's' as u8,
        'c' as u8,
        'r' as u8,
        'i' as u8,
        'p' as u8,
        't' as u8,
        '>' as u8,
    ]
}

/// The path-traversal probe `../../`.
pub open spec fn pat_traversal() -> Seq<u8> {
    seq!['.' as u8, '.' as u8, '/' as u8, '.' as u8, '.' as u8, '/' as u8]
}

/// The permission-loosening probe `chmod 777`.
pub open spec fn pat_chmod() -> Seq<u8> {
    seq![
        'c' as u8,
        'h' as u8,
        'm' as u8,
        'o' as u8,
        'd' as u8,
        ' ' as u8,
        '7' as u8,
        '7' as u8,
        '7' as u8,
    ]
}

/// The deeper path-traversal probe `../../../` the request filter uses.
pub open spec fn pat_deep_traversal() -> Seq<u8> {
    seq![
        '.' as u8,
        '.' as u8,
        '/' as u8,
        '.' as u8,
        '.' as u8,
        '/' as u8,
        '.' as u8,
        '.' as u8,
        '/' as u8,
    ]
}

/// Whether a packet is free of all four threat probes of the firewall's
/// filter.
pub open spec fn packet_clean(b: Seq<u8>) -> bool {
    !contains_pattern(b, pat_drop_table()) && !contains_pattern(b, pat_script())
        && !contains_pattern(b, pat_traversal()) && !contains_pattern(b, pat_chmod())
}

/// Whether a request body is free of the three threat probes of the
/// HTTP server's filter: the same injection probes, but only the deeper
/// three-level traversal, and no permission probe.
pub open spec fn request_clean(b: Seq<u8>) -> bool {
    !contains_pattern(b, pat_drop_table()) && !contains_pattern(b, pat_script())
        && !contains_pattern(b, pat_deep_traversal())
}

/// Deep packet inspection, the firewall's variant: true exactly when
/// none of its four threat patterns occurs in the packet.
pub fn deep_packet_inspection(packet: &[u8]) -> (r: bool)
    ensures
        r == packet_clean(packet@),
{
    let mut drop_table: Vec<u8> = Vec::new();
    drop_table.push('D' as u8);
    drop_table.push('R' as u8);
    drop_table.push('O' as u8);
    drop_table.push('P' as u8);
    drop_table.push(' ' as u8);
    drop_table.push('T' as u8);
    drop_table.push('A' as u8);
    drop_table.push('B' as u8);
    drop_table.push('L' as u8);
    drop_table.push('E' as u8);
    proof {
        assert(drop_table@ =~= pat_drop_table());
    }
    let mut script: Vec<u8> = Vec::new();
    script.push('<' as u8);
    script.push('s' as u8);
    script.push('c' as u8);
    script.push('r' as u8);
    script.push('i' as u8);
    script.push('p' as u8);
    script.push('t' as u8);
    script.push('>' as u8);
    proof {
        assert(script@ =~= pat_script());
    }
    let mut traversal: Vec<u8> = Vec::new();
    traversal.push('.' as u8);
    traversal.push('.' as u8);
    traversal.push('/' as u8);
    traversal.push('.' as u8);
    traversal.push('.' as u8);
    traversal.push('/' as u8);
    proof {
        assert(traversal@ =~= pat_traversal());
    }
    let mut chmod: Vec<u8> = Vec::new();
    chmod.push('c' as u8);
    chmod.push('h' as u8);
    chmod.push('m' as u8);
    chmod.push('o' as u8);
    chmod.push('d' as u8);
    chmod.push(' ' as u8);
    chmod.push('7' as u8);
    chmod.push('7' as u8);
    chmod.push('7' as u8);
    proof {
        assert(chmod@ =~= pat_chmod());
    }
    !find_pattern(packet, drop_table.as_slice()) && !find_pattern(packet, script.as_slice())
        && !find_pattern(packet, traversal.as_slice()) && !find_pattern(
        packet,
        chmod.as_slice(),
    )
}

/// Deep request inspection, the HTTP server's variant: true exactly
/// when none of its three threat patterns occurs in the request. A body
/// that climbs only two directories, or probes file permissions, passes
/// here and is the firewall's concern.
pub fn deep_request_inspection(request: &[u8]) -> (r: bool)
    ensures
        r == request_clean(request@),
{
    let mut drop_table: Vec<u8> = Vec::new();
    drop_table.push('D' as u8);
    drop_table.push('R' as u8);
    drop_table.push('O' as u8);
    drop_table.push('P' as u8);
    drop_table.push(' ' as u8);
    drop_table.push('T' as u8);
    drop_table.push('A' as u8);
    drop_table.push('B' as u8);
    drop_table.push('L' as u8);
    drop_table.push('E' as u8);
    proof {
        assert(drop_table@ =~= pat_drop_table());
    }
    let mut script: Vec<u8> = Vec::new();
    script.push('<' as u8);
    script.push('s' as u8);
    script.push('c' as u8);
    script.push('r' as u8);
    script.push('i' as u8);
    script.push('p' as u8);
    script.push('t' as u8);
    script.push('>' as u8);
    proof {
        assert(script@ =~= pat_script());
    }
    let mut traversal: Vec<u8> = Vec::new();
    traversal.push('.' as u8);
    traversal.push('.' as u8);
    traversal.push('/' as u8);
    traversal.push('.' as u8);
    traversal.push('.' as u8);
    traversal.push('/' as u8);
    traversal.push('.' as u8);
    traversal.push('.' as u8);
    traversal.push('/' as u8);
    proof {
        assert(traversal@ =~= pat_deep_traversal());
    }
    !find_pattern(request, drop_table.as_slice()) && !find_pattern(request, script.as_slice())
        && !find_pattern(request, traversal.as_slice())
}

/// The shell-activity probe `powershell.exe`.
pub open spec fn pat_powershell() -> Seq<u8> {
    seq![
        'p' as u8,
        'o' as u8,
        'w' as u8,
        'e' as u8,
        'r' as u8,
        's' as u8,
        'h' as u8,
        'e' as u8,
        'l' as u8,
        'l' as u8,
        '.' as u8,
        'e' as u8,
        'x' as u8,
        'e' as u8,
    ]
}

/// The command-injection probe `cmd.exe`.
pub open spec fn pat_cmd() -> Seq<u8> {
    seq!['c' as u8, 'm' as u8, 'd' as u8, '.' as u8, 'e' as u8, 'x' as u8, 'e' as u8]
}

/// The shell-invocation probe `/bin/sh`.
pub open spec fn pat_binsh() -> Seq<u8> {
    seq!['/' as u8, 'b' as u8, 'i' as u8, 'n' as u8, '/' as u8, 's' as u8, 'h' as u8]
}

/// The encoded-payload probe `base64,`.
pub open spec fn pat_base64() -> Seq<u8> {
    seq!['b' as u8, 'a' as u8, 's' as u8, 'e' as u8, '6' as u8, '4' as u8, ',' as u8]
}

/// The alert the first matching probe raises, checked in a fixed order.
pub open spec fn suspicious_verdict(b: Seq<u8>) -> Option<Seq<char>> {
    if contains_pattern(b, pat_powershell()) {
        Some("Possible Windows-based exploitation detected (powershell)"@)
    } else if contains_pattern(b, pat_cmd()) {
        Some("Possible command injection attempt detected"@)
    } else if contains_pattern(b, pat_binsh()) {
        Some("Possible Unix shell invocation detected"@)
    } else if contains_pattern(b, pat_base64()) {
        Some("Possible encoded payload detected"@)
    } else {
        None
    }
}

/// Scans a payload for suspicious byte signatures and names the first
/// one found.
pub fn check_suspicious_patterns(payload: &[u8]) -> (r: Option<&'static str>)
    ensures
        match r {
            Some(m) => suspicious_verdict(payload@) == Some(m@),
            None => suspicious_verdict(payload@) is None,
        },
{
    let mut powershell: Vec<u8> = Vec::new();
    powershell.push('p' as u8);
    powershell.push('o' as u8);
    powershell.push('w' as u8);
    powershell.push('e' as u8);
    powershell.push('r' as u8);
    powershell.push('s' as u8);
    powershell.push('h' as u8);
    powershell.push('e' as u8);
    powershell.push('l' as u8);
    powershell.push('l' as u8);
    powershell.push('.' as u8);
    powershell.push('e' as u8);
    powershell.push('x' as u8);
    powershell.push('e' as u8);
    proof {
        assert(powershell@ =~= pat_powershell());
    }
    if find_pattern(payload, powershell.as_slice()) {
        return Some("Possible Windows-based exploitation detected (powershell)");
    }
    let mut cmd: Vec<u8> = Vec::new();
    cmd.push('c' as u8);
    cmd.push('m' as u8);
    cmd.push('d' as u8);
    cmd.push('.' as u8);
    cmd.push('e' as u8);
    cmd.push('x' as u8);
    cmd.push('e' as u8);
    proof {
        assert(cmd@ =~= pat_cmd());
    }
    if find_pattern(payload, cmd.as_slice()) {
        return Some("Possible command injection attempt detected");
    }
    let mut binsh: Vec<u8> = Vec::new();
    binsh.push('/' as u8);
    binsh.push('b' as u8);
    binsh.push('i' as u8);
    binsh.push('n' as u8);
    binsh.push('/' as u8);
    binsh.push('s' as u8);
    binsh.push('h' as u8);
    proof {
        assert(binsh@ =~= pat_binsh());
    }
    if find_pattern(payload, binsh.as_slice()) {
        return Some("Possible Unix shell invocation detected");
    }
    let mut base64_probe: Vec<u8> = Vec::new();
    base64_probe.push('b' as u8);
    base64_probe.push('a' as u8);
    base64_probe.push('s' as u8);
    base64_probe.push('e' as u8);
    base64_probe.push('6' as u8);
    base64_probe.push('4' as u8);
    base64_probe.push(',' as u8);
    proof {
        assert(base64_probe@ =~= pat_base64());
    }
    if find_pattern(payload, base64_probe.as_slice()) {
        return Some("Possible encoded payload detected");
    }
    None
}

/// The known-vulnerable opcode signatures, each with its description.
pub fn vulnerable_signatures() -> (r: Vec<(Vec<u8>, &'static str)>)
    ensures
        r@.len() == 3,
        r@[0].0@ == seq![0xffu8, 0xe4u8] && r@[0].1@
            == "jmp esp - Potential buffer overflow (shellcode jump)"@,
        r@[1].0@ == seq![0xcdu8, 0x80u8] && r@[1].1@
            == "int 0x80 syscall - Linux 32-bit direct syscall"@,
        r@[2].0@ == seq![0x0fu8, 0x05u8] && r@[2].1@ == "syscall - Linux 64-bit syscall"@,
{
    let mut sigs: Vec<(Vec<u8>, &'static str)> = Vec::new();
    let mut jmp_esp: Vec<u8> = Vec::new();
    jmp_esp.push(0xff);
    jmp_esp.push(0xe4);
    proof {
        assert(jmp_esp@ =~= seq![0xffu8, 0xe4u8]);
    }
    sigs.push((jmp_esp, "jmp esp - Potential buffer overflow (shellcode jump)"));
    let mut int80: Vec<u8> = Vec::new();
    int80.push(0xcd);
    int80.push(0x80);
    proof {
        assert(int80@ =~= seq![0xcdu8, 0x80u8]);
    }
    sigs.push((int80, "int 0x80 syscall - Linux 32-bit direct syscall"));
    let mut syscall: Vec<u8> = Vec::new();
    syscall.push(0x0f);
    syscall.push(0x05);
    proof {
        assert(syscall@ =~= seq![0x0fu8, 0x05u8]);
    }
    sigs.push((syscall, "syscall - Linux 64-bit syscall"));
    sigs
}

/// A placeholder bearer check at the transport edge: the presented
/// token must equal the configured shared secret.
pub fn validate_jwt(token: &str, secret: &str) -> (r: bool)
    ensures
        r == (token@ == secret@),
{
    str_eq(token, secret)
}

/// Whether the buffer still ends with the canary byte.
pub fn detect_buffer_overflow(buffer: &[u8], canary_value: u8) -> (r: bool)
    ensures
        r == (buffer@.len() > 0 && buffer@.last() == canary_value),
{
    if buffer.len() == 0 {
        return false;
    }
    buffer[buffer.len() - 1] == canary_value
}

} // verus!
