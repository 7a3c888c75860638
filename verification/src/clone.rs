//! The pure half of the smart-HTTP transfer client: pkt-line parsing
//! of the ref advertisement, the `want`/`done` negotiation body, and
//! the splitting of a response into acknowledgment and pack bytes.
//! The network requests themselves stay with the caller.

use vstd::prelude::*;

use crate::digest::hex_digit_val;
use crate::digest::is_hex_digit;
use crate::packfile::be32;
use crate::packfile::checksum_ok;
use crate::packfile::pack_decode;
use crate::packfile::pack_magic_ok;
use crate::packfile::PackStatus;
use crate::packfile::Packfile;
use crate::store::store_extends;
use crate::store::ObjectStore;
use crate::util::append_bytes;
use crate::util::bytes_eq;
use crate::util::copy_bytes;
use crate::util::spec_find_byte;
use crate::util::subvec;
use crate::GitError;

verus! {

/// The views of a list of byte vectors.
pub open spec fn lines_model(s: Seq<Vec<u8>>) -> Seq<Seq<u8>> {
    s.map_values(|v: Vec<u8>| v@)
}

/// The length a 4-hex-digit pkt-line prefix at `i` declares, if all
/// four bytes are hex digits within bounds.
pub open spec fn pkt_len_at(s: Seq<u8>, i: int) -> Option<int> {
    if i + 4 <= s.len() && is_hex_digit(s[i]) && is_hex_digit(s[i + 1]) && is_hex_digit(s[i + 2])
        && is_hex_digit(s[i + 3]) {
        Some(
            4096 * (hex_digit_val(s[i]) as int) + 256 * (hex_digit_val(s[i + 1]) as int) + 16 * (
            hex_digit_val(s[i + 2]) as int) + (hex_digit_val(s[i + 3]) as int),
        )
    } else {
        None
    }
}

/// The pkt-line payloads of a body from `i` on: each line's count
/// covers its own 4-digit prefix, `0000` is a flush marker carrying
/// nothing, and a count of 1 to 3 or a truncated line is malformed.
pub open spec fn parse_pkt_lines(s: Seq<u8>, i: int) -> Option<Seq<Seq<u8>>>
    decreases s.len() - i when 0 <= i <= s.len()
{
    if i == s.len() {
        Some(Seq::empty())
    } else {
        match pkt_len_at(s, i) {
            None => None,
            Some(n) => {
                if n == 0 {
                    parse_pkt_lines(s, i + 4)
                } else if n >= 4 && i + n <= s.len() {
                    match parse_pkt_lines(s, i + n) {
                        None => None,
                        Some(rest) => Some(seq![s.subrange(i + 4, i + n)] + rest),
                    }
                } else {
                    None
                }
            },
        }
    }
}

/// Reads the 4-hex-digit length prefix at `pos`.
fn read_pkt_len(data: &Vec<u8>, pos: usize) -> (r: Option<usize>)
    requires
        pos <= data@.len(),
    ensures
        match r {
            Some(n) => pkt_len_at(data@, pos as int) == Some(n as int) && n < 65536,
            None => pkt_len_at(data@, pos as int) is None,
        },
{
    let dlen = data.len();
    if dlen < 4 || pos > dlen - 4 {
        return None;
    }
    let b0 = data[pos];
    let b1 = data[pos + 1];
    let b2 = data[pos + 2];
    let b3 = data[pos + 3];
    let h0 = hex_digit_value(b0);
    let h1 = hex_digit_value(b1);
    let h2 = hex_digit_value(b2);
    let h3 = hex_digit_value(b3);
    match (h0, h1, h2, h3) {
        (Some(v0), Some(v1), Some(v2), Some(v3)) => Some(
            4096 * (v0 as usize) + 256 * (v1 as usize) + 16 * (v2 as usize) + (v3 as usize),
        ),
        _ => None,
    }
}

/// The value of one hex digit byte, if it is one.
fn hex_digit_value(b: u8) -> (r: Option<u8>)
    ensures
        match r {
            Some(v) => is_hex_digit(b) && v == hex_digit_val(b) && v < 16,
            None => !is_hex_digit(b),
        },
{
    if 48 <= b && b <= 57 {
        Some(b - 48)
    } else if 97 <= b && b <= 102 {
        Some(b - 87)
    } else if 65 <= b && b <= 70 {
        Some(b - 55)
    } else {
        None
    }
}

/// Splits a response body into its pkt-line payloads, skipping flush
/// markers. Any malformed or truncated line is a protocol error.
pub fn parsed_response(resp: &Vec<u8>) -> (r: Result<Vec<Vec<u8>>, GitError>)
    ensures
        match parse_pkt_lines(resp@, 0) {
            Some(ls) => r matches Ok(v) && lines_model(v@) == ls,
            None => r == Err::<Vec<Vec<u8>>, GitError>(GitError::ProtocolError),
        },
{
    let mut acc: Vec<Vec<u8>> = Vec::new();
    let mut pos: usize = 0;
    let dlen = resp.len();
    proof {
        assert(lines_model(acc@) =~= Seq::<Seq<u8>>::empty());
    }
    while pos < dlen
        invariant
            pos <= dlen,
            dlen == resp@.len(),
            (match parse_pkt_lines(resp@, pos as int) {
                Some(rest) => parse_pkt_lines(resp@, 0) == Some(lines_model(acc@) + rest),
                None => parse_pkt_lines(resp@, 0) is None,
            }),
        decreases dlen - pos,
    {
        let n = match read_pkt_len(resp, pos) {
            Some(n) => n,
            None => {
                return Err(GitError::ProtocolError);
            },
        };
        if n == 0 {
            pos = pos + 4;
        } else if n >= 4 && n <= dlen - pos {
            let payload = subvec(resp, pos + 4, pos + n);
            let ghost prev = lines_model(acc@);
            acc.push(payload);
            proof {
                assert(lines_model(acc@) =~= prev.push(resp@.subrange(pos + 4, pos + n)));
                if parse_pkt_lines(resp@, pos + n) is Some {
                    let rest = parse_pkt_lines(resp@, pos + n)->Some_0;
                    assert(prev + (seq![resp@.subrange(pos + 4, pos + n)] + rest) =~= lines_model(
                        acc@,
                    ) + rest);
                }
            }
            pos = pos + n;
        } else {
            return Err(GitError::ProtocolError);
        }
    }
    proof {
        assert(lines_model(acc@) + Seq::<Seq<u8>>::empty() =~= lines_model(acc@));
    }
    Ok(acc)
}

/// The first position at or after `i` holding NUL or newline, or the
/// end.
pub open spec fn name_end(p: Seq<u8>, i: int) -> int
    decreases p.len() - i when 0 <= i <= p.len()
{
    if i >= p.len() {
        i
    } else if p[i] == 0 || p[i] == 10 {
        i
    } else {
        name_end(p, i + 1)
    }
}

/// The ref name of an advertisement payload: everything after the
/// 40-hex id and its space, up to a NUL, a newline, or the end.
pub open spec fn ref_name_of(p: Seq<u8>) -> Seq<u8> {
    p.subrange(41, name_end(p, 41))
}

/// The id a payload advertises: present when the payload is a ref
/// line (40 hex digits, a space, a name) naming anything but `HEAD`.
pub open spec fn line_want(p: Seq<u8>) -> Option<Seq<u8>> {
    if p.len() >= 41 && (forall|k: int| 0 <= k < 40 ==> is_hex_digit(p[k])) && p[40] == 32 {
        if ref_name_of(p) == seq![72u8, 69u8, 65u8, 68u8] {
            None
        } else {
            Some(p.subrange(0, 40))
        }
    } else {
        None
    }
}

/// The ids of every advertised ref other than `HEAD`, in order;
/// service announcements and other non-ref lines carry none.
pub open spec fn want_ids(lines: Seq<Seq<u8>>) -> Seq<Seq<u8>>
    decreases lines.len(),
{
    if lines.len() == 0 {
        Seq::empty()
    } else {
        match line_want(lines[0]) {
            Some(id) => seq![id] + want_ids(lines.drop_first()),
            None => want_ids(lines.drop_first()),
        }
    }
}

/// The end of the ref name starting at 41.
fn find_name_end(p: &Vec<u8>) -> (r: usize)
    requires
        41 <= p@.len(),
    ensures
        r as int == name_end(p@, 41),
        41 <= r <= p@.len(),
{
    let dlen = p.len();
    let mut i: usize = 41;
    while i < dlen
        invariant
            41 <= i <= dlen,
            dlen == p@.len(),
            name_end(p@, 41) == name_end(p@, i as int),
        decreases dlen - i,
    {
        if p[i] == 0 || p[i] == 10 {
            return i;
        }
        i += 1;
    }
    i
}

/// The id one payload advertises, if it is a non-`HEAD` ref line.
fn ref_line_want(p: &Vec<u8>) -> (r: Option<Vec<u8>>)
    ensures
        match r {
            Some(id) => line_want(p@) == Some(id@),
            None => line_want(p@) is None,
        },
{
    let dlen = p.len();
    if dlen < 41 {
        return None;
    }
    let idpart = subvec(p, 0, 40);
    if !crate::digest::is_hex40(&idpart) {
        proof {
            let bad = choose|k: int| 0 <= k < 40 && !is_hex_digit(idpart@[k]);
            assert(p@[bad] == idpart@[bad]);
        }
        return None;
    }
    if p[40] != 32 {
        return None;
    }
    let nend = find_name_end(p);
    let name = subvec(p, 41, nend);
    let mut head: Vec<u8> = Vec::new();
    head.push(72);
    head.push(69);
    head.push(65);
    head.push(68);
    proof {
        assert(head@ =~= seq![72u8, 69u8, 65u8, 68u8]);
        assert forall|k: int| 0 <= k < 40 implies is_hex_digit(p@[k]) by {
            assert(idpart@[k] == p@[k]);
        }
    }
    if bytes_eq(&name, &head) {
        None
    } else {
        Some(idpart)
    }
}

/// One `want` pkt-line: `"0032want "`, the 40-hex id, a newline.
pub open spec fn want_line(id: Seq<u8>) -> Seq<u8> {
    seq![48u8, 48u8, 51u8, 50u8, 119u8, 97u8, 110u8, 116u8, 32u8] + id + seq![10u8]
}

/// The want lines for a list of ids, in order.
pub open spec fn wants_body(ids: Seq<Seq<u8>>) -> Seq<u8>
    decreases ids.len(),
{
    if ids.len() == 0 {
        Seq::empty()
    } else {
        wants_body(ids.drop_last()) + want_line(ids.last())
    }
}

/// The whole negotiation body: every want line, the `0000` flush, and
/// the `done` line.
pub open spec fn negotiation_body(ids: Seq<Seq<u8>>) -> Seq<u8> {
    wants_body(ids) + seq![48u8, 48u8, 48u8, 48u8] + seq![
        48u8,
        48u8,
        48u8,
        57u8,
        100u8,
        111u8,
        110u8,
        101u8,
        10u8,
    ]
}

/// Collects the ids of every advertised ref other than `HEAD`.
pub fn collect_want_ids(lines: &Vec<Vec<u8>>) -> (r: Vec<Vec<u8>>)
    ensures
        lines_model(r@) == want_ids(lines_model(lines@)),
{
    let mut ids: Vec<Vec<u8>> = Vec::new();
    let mut i: usize = 0;
    proof {
        assert(lines_model(ids@) =~= Seq::<Seq<u8>>::empty());
        assert(lines_model(lines@).skip(0) =~= lines_model(lines@));
    }
    while i < lines.len()
        invariant
            i <= lines@.len(),
            want_ids(lines_model(lines@)) == lines_model(ids@) + want_ids(
                lines_model(lines@).skip(i as int),
            ),
        decreases lines@.len() - i,
    {
        let ghost suffix = lines_model(lines@).skip(i as int);
        proof {
            assert(suffix[0] == lines_model(lines@)[i as int]);
            assert(suffix.drop_first() =~= lines_model(lines@).skip(i + 1));
        }
        match ref_line_want(&lines[i]) {
            Some(id) => {
                let ghost prev = lines_model(ids@);
                ids.push(id);
                proof {
                    assert(lines_model(ids@) =~= prev.push(id@));
                    assert(prev + (seq![id@] + want_ids(suffix.drop_first())) =~= lines_model(ids@)
                        + want_ids(suffix.drop_first()));
                }
            },
            None => {},
        }
        i += 1;
    }
    proof {
        assert(lines_model(lines@).skip(lines@.len() as int) =~= Seq::<Seq<u8>>::empty());
        assert(lines_model(ids@) + Seq::<Seq<u8>>::empty() =~= lines_model(ids@));
    }
    ids
}

/// Builds the negotiation body for an advertisement's payload lines:
/// a `want` for every ref other than `HEAD`, then the flush and
/// `done`. With nothing to want, only the flush and `done` remain.
pub fn post_content(lines: &Vec<Vec<u8>>) -> (r: Vec<u8>)
    ensures
        r@ == negotiation_body(want_ids(lines_model(lines@))),
{
    let ids = collect_want_ids(lines);
    let mut body: Vec<u8> = Vec::new();
    let mut i: usize = 0;
    proof {
        assert(lines_model(ids@).subrange(0, 0) =~= Seq::<Seq<u8>>::empty());
        assert(body@ =~= wants_body(lines_model(ids@).subrange(0, 0)));
    }
    while i < ids.len()
        invariant
            i <= ids@.len(),
            body@ == wants_body(lines_model(ids@).subrange(0, i as int)),
        decreases ids@.len() - i,
    {
        body.push(48);
        body.push(48);
        body.push(51);
        body.push(50);
        body.push(119);
        body.push(97);
        body.push(110);
        body.push(116);
        body.push(32);
        append_bytes(&mut body, &ids[i]);
        body.push(10);
        proof {
            let pre = lines_model(ids@).subrange(0, i as int);
            let cur = lines_model(ids@).subrange(0, i + 1);
            assert(cur.drop_last() =~= pre);
            assert(cur.last() == ids@[i as int]@);
            assert(body@ =~= wants_body(pre) + want_line(ids@[i as int]@));
        }
        i += 1;
    }
    proof {
        assert(lines_model(ids@).subrange(0, ids@.len() as int) =~= lines_model(ids@));
    }
    body.push(48);
    body.push(48);
    body.push(48);
    body.push(48);
    body.push(48);
    body.push(48);
    body.push(48);
    body.push(57);
    body.push(100);
    body.push(111);
    body.push(110);
    body.push(101);
    body.push(10);
    proof {
        assert(body@ =~= negotiation_body(lines_model(ids@)));
    }
    body
}

/// A remote that advertises no ref other than `HEAD` yields an empty
/// want set, and the negotiation body for it consists of the flush
/// marker and the `done` line alone: no `want` is ever sent.
pub proof fn lemma_no_refs_no_wants(lines: Seq<Seq<u8>>)
    requires
        forall|i: int| 0 <= i < lines.len() ==> line_want(#[trigger] lines[i]) is None,
    ensures
        want_ids(lines) == Seq::<Seq<u8>>::empty(),
        negotiation_body(want_ids(lines)) == seq![
            48u8,
            48u8,
            48u8,
            48u8,
            48u8,
            48u8,
            48u8,
            57u8,
            100u8,
            111u8,
            110u8,
            101u8,
            10u8,
        ],
    decreases lines.len(),
{
    if lines.len() > 0 {
        assert(line_want(lines[0]) is None);
        assert forall|i: int| 0 <= i < lines.drop_first().len() implies line_want(
            #[trigger] lines.drop_first()[i],
        ) is None by {
            assert(lines.drop_first()[i] == lines[i + 1]);
        }
        lemma_no_refs_no_wants(lines.drop_first());
    }
    assert(negotiation_body(Seq::<Seq<u8>>::empty()) =~= seq![
        48u8,
        48u8,
        48u8,
        48u8,
        48u8,
        48u8,
        48u8,
        57u8,
        100u8,
        111u8,
        110u8,
        101u8,
        10u8,
    ]);
}

/// Splitting a body at its first newline: the acknowledgment line and
/// everything after it.
pub open spec fn spec_split_first_line(s: Seq<u8>) -> Option<(Seq<u8>, Seq<u8>)> {
    match spec_find_byte(s, 0, 10) {
        None => None,
        Some(i) => Some((s.subrange(0, i), s.subrange(i + 1, s.len() as int))),
    }
}

/// Splits a negotiation response into the acknowledgment line and the
/// pack bytes after it. A response without a newline is missing its
/// acknowledgment.
pub fn split_ack_pack(resp: &Vec<u8>) -> (r: Result<(Vec<u8>, Vec<u8>), GitError>)
    ensures
        match spec_split_first_line(resp@) {
            Some(p) => r matches Ok(q) && q.0@ == p.0 && q.1@ == p.1,
            None => r == Err::<(Vec<u8>, Vec<u8>), GitError>(GitError::ProtocolError),
        },
{
    let dlen = resp.len();
    match crate::util::find_byte(resp, 0, 10) {
        None => Err(GitError::ProtocolError),
        Some(i) => {
            let ack = subvec(resp, 0, i);
            let rest = subvec(resp, i + 1, dlen);
            Ok((ack, rest))
        },
    }
}

/// The normalized request target: a trailing `".git/"` loses its
/// slash, any other trailing slash is replaced by `".git"`, and
/// anything else gains `".git"`.
pub open spec fn spec_normalize_url(u: Seq<u8>) -> Seq<u8> {
    let git_slash = seq![46u8, 103u8, 105u8, 116u8, 47u8];
    let git = seq![46u8, 103u8, 105u8, 116u8];
    if u.len() >= 5 && u.subrange(u.len() - 5, u.len() as int) == git_slash {
        u.subrange(0, u.len() - 1)
    } else if u.len() >= 1 && u.last() == 47 {
        u.subrange(0, u.len() - 1) + git
    } else {
        u + git
    }
}

/// Normalizes a repository URL to end in `".git"`.
pub fn normalize_url(url: &Vec<u8>) -> (r: Vec<u8>)
    ensures
        r@ == spec_normalize_url(url@),
{
    let dlen = url.len();
    let ends_git_slash = dlen >= 5 && url[dlen - 5] == 46 && url[dlen - 4] == 103 && url[dlen - 3]
        == 105 && url[dlen - 2] == 116 && url[dlen - 1] == 47;
    proof {
        let git_slash = seq![46u8, 103u8, 105u8, 116u8, 47u8];
        if url@.len() >= 5 {
            let tail = url@.subrange(url@.len() - 5, url@.len() as int);
            if ends_git_slash {
                assert(tail =~= git_slash);
            } else {
                if tail == git_slash {
                    assert(url@[url@.len() - 5] == tail[0]);
                    assert(url@[url@.len() - 4] == tail[1]);
                    assert(url@[url@.len() - 3] == tail[2]);
                    assert(url@[url@.len() - 2] == tail[3]);
                    assert(url@[url@.len() - 1] == tail[4]);
                }
            }
        }
    }
    if ends_git_slash {
        let r = subvec(url, 0, dlen - 1);
        r
    } else if dlen >= 1 && url[dlen - 1] == 47 {
        let mut r = subvec(url, 0, dlen - 1);
        r.push(46);
        r.push(103);
        r.push(105);
        r.push(116);
        proof {
            assert(r@ =~= url@.subrange(0, url@.len() - 1) + seq![46u8, 103u8, 105u8, 116u8]);
        }
        r
    } else {
        let mut r = copy_bytes(url);
        r.push(46);
        r.push(103);
        r.push(105);
        r.push(116);
        proof {
            assert(r@ =~= url@ + seq![46u8, 103u8, 105u8, 116u8]);
        }
        r
    }
}

/// Decides whether a discovery response's status allows the exchange
/// to continue: success or not-modified does, anything else is an
/// unreachable remote.
pub fn check_discovery_status(status: u16) -> (r: Result<(), GitError>)
    ensures
        (status == 200 || status == 304) <==> r is Ok,
        !(status == 200 || status == 304) ==> r == Err::<(), GitError>(GitError::UnreachableRemote),
{
    if status == 200 || status == 304 {
        Ok(())
    } else {
        Err(GitError::UnreachableRemote)
    }
}

/// Consumes one negotiation response: drops the acknowledgment line,
/// validates the pack container after it, and decodes its objects
/// into the store — outcome for outcome what `pack_decode` says of
/// the bytes after the first newline. The store ends exactly as the
/// decode's writes left it, whatever fails.
pub fn handle_fetch_response(store: &mut ObjectStore, resp: &Vec<u8>) -> (r: Result<u32, GitError>)
    requires
        old(store).wf(),
    ensures
        final(store).wf(),
        store_extends(final(store)@, old(store)@),
        spec_split_first_line(resp@) is None ==> r == Err::<u32, GitError>(GitError::ProtocolError)
            && final(store)@ == old(store)@,
        (spec_split_first_line(resp@) matches Some(p) && !pack_magic_ok(p.1)) ==> r == Err::<
            u32,
            GitError,
        >(GitError::InvalidHeader) && final(store)@ == old(store)@,
        ({
            let sp = spec_split_first_line(resp@);
            sp is Some && pack_magic_ok((sp->Some_0).1) ==> {
                let pb = (sp->Some_0).1;
                &&& final(store)@ == pack_decode(pb, old(store)@).store
                &&& ((r matches Ok(n)) <==> (pack_decode(pb, old(store)@).status is Decoded
                    && checksum_ok(pb)))
                &&& (r matches Ok(n) ==> n as int == be32(pb, 8))
                &&& ((r == Err::<u32, GitError>(GitError::ChecksumMismatch)) <==> (pack_decode(
                    pb,
                    old(store)@,
                ).status is Decoded && !checksum_ok(pb)))
                &&& ((r == Err::<u32, GitError>(GitError::Corrupt)) <==> pack_decode(
                    pb,
                    old(store)@,
                ).status is Corrupt)
                &&& ((r == Err::<u32, GitError>(GitError::MissingBase)) <==> pack_decode(
                    pb,
                    old(store)@,
                ).status is MissingBase)
            }
        }),
{
    let (_ack, pack_bytes) = match split_ack_pack(resp) {
        Ok(p) => p,
        Err(e) => {
            return Err(e);
        },
    };
    let pack = match Packfile::new(pack_bytes) {
        Ok(p) => p,
        Err(e) => {
            return Err(e);
        },
    };
    pack.parse_pack(store)
}

} // verus!
