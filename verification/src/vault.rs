//! The bookkeeping around accounts and stored passwords: account
//! identifiers made of a two-byte prefix and a counter, the stored form of
//! an encrypted password, and the reading back of an account's passwords.
use vstd::prelude::*;
use vstd::utf8::*;
use crate::auth::{
    decrypt_password, decryptable, encrypt_password, sealed_len_matches, encryptable, encrypted_from, spec_decrypt_password,
    spec_encrypt_password, text_result, usable_salt_and_nonce,
};
use crate::crypto::{
    aes256gcm_open, argon2_raw_key, is_generated_salt, DERIVED_KEY_LEN, TAG_LEN, ARGON2_MAX_PASSWORD_LEN, ARGON2_MAX_SALT_LEN, ARGON2_MIN_SALT_LEN, NONCE_LEN,
};
use crate::encoding::{
    b64_decode, b64_decode_exec, lemma_b64_decode_result, lemma_b64_encode_chars, str_from_utf8,
};
use crate::text::{
    free_of, join3, join_with_bars, lemma_split_join3, split_on, split_text,
    ascii_uppercase, format_zero_padded3, parse_i32, parse_i32_text, to_uppercase_exec, unicode_uppercase,
    zero_padded3, lemma_parse_zero_padded3, texts,
};

verus! {

/// The text made of the first `k` bytes of the UTF-8 form of `s`.
pub open spec fn leading_bytes(s: Seq<char>, k: int) -> Seq<char> {
    decode_utf8(encode_utf8(s).subrange(0, k))
}

/// The text that follows the first `k` bytes of the UTF-8 form of `s`.
pub open spec fn trailing_bytes(s: Seq<char>, k: int) -> Seq<char> {
    decode_utf8(encode_utf8(s).subrange(k, encode_utf8(s).len() as int))
}

/// Byte offset 2 falls between characters of `s` (so `&s[..2]` and
/// `&s[2..]` exist).
pub open spec fn splits_at_two(s: Seq<char>) -> bool {
    is_char_boundary(encode_utf8(s), 2)
}

/// The identifier prefix for an e-mail address or user name: its first two
/// bytes, in upper case.
pub open spec fn spec_custom_id_prefix(email: Seq<char>) -> Seq<char> {
    unicode_uppercase(leading_bytes(email, 2))
}

proof fn lemma_split_at_two_views(s: Seq<char>, head: Seq<char>, tail: Seq<char>)
    requires
        encode_utf8(head) == encode_utf8(s).subrange(0, 2),
        encode_utf8(tail) == encode_utf8(s).subrange(2, encode_utf8(s).len() as int),
    ensures
        head == leading_bytes(s, 2),
        tail == trailing_bytes(s, 2),
{
    encode_utf8_decode_utf8(head);
    encode_utf8_decode_utf8(tail);
}

/// ASCII upper-casing keeps text ASCII and keeps its length.
pub proof fn lemma_ascii_uppercase_ascii(s: Seq<char>)
    requires
        is_ascii_chars(s),
    ensures
        is_ascii_chars(ascii_uppercase(s)),
        ascii_uppercase(s).len() == s.len(),
{
    let u = ascii_uppercase(s);
    assert forall|i: int| 0 <= i < u.len() implies '\0' <= #[trigger] u[i] <= '\u{7f}' by {
        assert(u[i] == (if 'a' <= s[i] <= 'z' { ((s[i] as u32) - 32) as char } else { s[i] }));
    }
}

/// The upper-cased first two bytes of `email_username`, as
/// `email_username[0..2].to_uppercase()`. When those bytes are ASCII, the
/// prefix is their ASCII upper-casing and is again two bytes long.
pub fn custom_id_prefix(email_username: &str) -> (prefix: String)
    requires
        splits_at_two(email_username@),
    ensures
        prefix@ == spec_custom_id_prefix(email_username@),
        prefix@ == unicode_uppercase(decode_utf8(encode_utf8(email_username@).subrange(0, 2))),
        is_ascii_chars(leading_bytes(email_username@, 2)) ==> prefix@ == ascii_uppercase(
            leading_bytes(email_username@, 2),
        ) && encode_utf8(prefix@).len() == 2,
{
    let (head, tail) = email_username.split_at(2);
    proof {
        lemma_split_at_two_views(email_username@, head@, tail@);
    }
    let prefix = to_uppercase_exec(head);
    proof {
        encode_utf8_valid_utf8(email_username@);
        assert(encode_utf8(email_username@).len() >= 2);
        assert(encode_utf8(head@).len() == 2);
        if is_ascii_chars(head@) {
            is_ascii_chars_encode_utf8(head@);
            lemma_ascii_uppercase_ascii(head@);
            is_ascii_chars_encode_utf8(prefix@);
        }
    }
    prefix
}

/// The pattern that selects the identifiers with a prefix: the prefix
/// followed by `%`.
pub fn id_like_pattern(prefix: &str) -> (pattern: String)
    ensures
        pattern@ == prefix@.push('%'),
{
    let percent = "%";
    proof {
        reveal_strlit("%");
    }
    let mut pattern = prefix.to_owned();
    pattern.append(percent);
    assert(pattern@ =~= prefix@.push('%'));
    pattern
}

/// The counter of an identifier: the number after its first two bytes, or
/// 0 when that text is not a decimal `i32`.
pub open spec fn spec_id_number(id: Seq<char>) -> i32 {
    match parse_i32(trailing_bytes(id, 2)) {
        Some(v) => v,
        None => 0,
    }
}

/// Reads the counter of an identifier, as `id[2..].parse().unwrap_or(0)`.
pub fn id_number(id: &str) -> (n: i32)
    requires
        splits_at_two(id@),
    ensures
        n == spec_id_number(id@),
        n == match parse_i32(decode_utf8(encode_utf8(id@).subrange(2, encode_utf8(id@).len() as int))) {
            Some(v) => v,
            None => 0,
        },
{
    let (head, tail) = id.split_at(2);
    proof {
        lemma_split_at_two_views(id@, head@, tail@);
    }
    match parse_i32_text(tail) {
        Some(v) => v,
        None => 0,
    }
}

/// The largest counter among the identifiers, and 0 when none is larger.
pub open spec fn max_id_number(ids: Seq<Seq<char>>) -> int
    decreases ids.len(),
{
    if ids.len() == 0 {
        0
    } else {
        let m = max_id_number(ids.drop_last());
        let v = spec_id_number(ids.last()) as int;
        if v > m { v } else { m }
    }
}

pub proof fn lemma_max_id_number_bounds(ids: Seq<Seq<char>>)
    ensures
        max_id_number(ids) >= 0,
        forall|i: int| 0 <= i < ids.len() ==> spec_id_number(#[trigger] ids[i]) <= max_id_number(ids),
        max_id_number(ids) == 0 || exists|i: int| 0 <= i < ids.len() && spec_id_number(#[trigger] ids[i]) == max_id_number(ids),
    decreases ids.len(),
{
    if ids.len() > 0 {
        lemma_max_id_number_bounds(ids.drop_last());
        let m = max_id_number(ids.drop_last());
        if spec_id_number(ids.last()) as int > m {
            assert(spec_id_number(ids[ids.len() - 1]) == max_id_number(ids));
        } else if m != 0 {
            let j = choose|j: int| 0 <= j < ids.drop_last().len() && spec_id_number(#[trigger] ids.drop_last()[j]) == m;
            assert(ids[j] == ids.drop_last()[j]);
        }
        assert forall|i: int| 0 <= i < ids.len() implies spec_id_number(#[trigger] ids[i]) <= max_id_number(ids) by {
            if i < ids.len() - 1 {
                assert(ids[i] == ids.drop_last()[i]);
            }
        }
    }
}

/// The identifier that follows the given ones: the prefix and, written with
/// at least three digits, one more than the largest counter.
pub open spec fn spec_next_custom_id(prefix: Seq<char>, ids: Seq<Seq<char>>) -> Seq<char> {
    prefix + zero_padded3((max_id_number(ids) + 1) as nat)
}

/// Every identifier splits after two bytes and no counter is `i32::MAX`,
/// so counting on does not overflow.
pub open spec fn ids_countable(ids: Seq<Seq<char>>) -> bool {
    &&& forall|i: int| 0 <= i < ids.len() ==> splits_at_two(#[trigger] ids[i])
    &&& max_id_number(ids) < i32::MAX
}

/// The next identifier for a prefix, given the identifiers already stored
/// under it. When the prefix takes exactly two bytes, the new identifier is
/// none of the given ones.
pub fn next_custom_id(prefix: &str, existing_ids: &Vec<String>) -> (id: String)
    requires
        ids_countable(texts(existing_ids@)),
    ensures
        id@ == spec_next_custom_id(prefix@, texts(existing_ids@)),
        exists|k: int| {
            &&& 1 <= k <= i32::MAX
            &&& id@ == prefix@ + #[trigger] zero_padded3(k as nat)
            &&& forall|i: int| 0 <= i < existing_ids@.len()
                ==> (parse_i32(trailing_bytes(#[trigger] existing_ids@[i]@, 2)) matches Some(v) ==> v < k)
            &&& (k == 1 || exists|i: int| 0 <= i < existing_ids@.len()
                && parse_i32(trailing_bytes(#[trigger] existing_ids@[i]@, 2)) == Some((k - 1) as i32))
            &&& encode_utf8(prefix@).len() == 2 ==> parse_i32(trailing_bytes(id@, 2)) == Some(k as i32)
        },
        encode_utf8(prefix@).len() == 2 ==> forall|i: int|
            0 <= i < existing_ids@.len() ==> #[trigger] existing_ids@[i]@ != id@,
{
    let ghost ids = texts(existing_ids@);
    let mut max_number: i32 = 0;
    let mut i: usize = 0;
    while i < existing_ids.len()
        invariant
            ids == texts(existing_ids@),
            ids_countable(ids),
            i <= existing_ids@.len(),
            max_number == max_id_number(ids.take(i as int)),
        decreases existing_ids@.len() - i,
    {
        assert(ids[i as int] == existing_ids@[i as int]@);
        assert(splits_at_two(ids[i as int]));
        let number = id_number(existing_ids[i].as_str());
        assert(ids.take(i as int + 1).drop_last() =~= ids.take(i as int));
        assert(ids.take(i as int + 1).last() == ids[i as int]);
        if number > max_number {
            max_number = number;
        }
        i = i + 1;
    }
    assert(ids.take(i as int) =~= ids);
    proof {
        lemma_max_id_number_bounds(ids);
    }
    let counter = format_zero_padded3((max_number + 1) as u32);
    let mut id = prefix.to_owned();
    id.append(counter.as_str());
    proof {
        let n = (max_number + 1) as nat;
        assert forall|i: int| 0 <= i < existing_ids@.len()
            implies (parse_i32(trailing_bytes(#[trigger] existing_ids@[i]@, 2)) matches Some(v) ==> v < n) by {
            assert(ids[i] == existing_ids@[i]@);
            assert(spec_id_number(ids[i]) <= max_id_number(ids));
        }
        if max_id_number(ids) != 0 {
            let j = choose|j: int| 0 <= j < ids.len() && spec_id_number(#[trigger] ids[j]) == max_id_number(ids);
            assert(ids[j] == existing_ids@[j]@);
            assert(parse_i32(trailing_bytes(existing_ids@[j]@, 2)) == Some((n - 1) as i32));
        }
        if encode_utf8(prefix@).len() == 2 {
            lemma_parse_zero_padded3(n);
            lemma_trailing_after_prefix(prefix@, zero_padded3(n));
        }
        assert(id@ == prefix@ + zero_padded3(n));
        if encode_utf8(prefix@).len() == 2 {
            lemma_parse_zero_padded3(n);
            lemma_trailing_after_prefix(prefix@, zero_padded3(n));
            assert forall|k: int| 0 <= k < existing_ids@.len() implies #[trigger] existing_ids@[k]@ != id@ by {
                assert(ids[k] == existing_ids@[k]@);
                assert(spec_id_number(ids[k]) <= max_id_number(ids));
                if existing_ids@[k]@ == id@ {
                    assert(spec_id_number(id@) == n);
                }
            }
        }
    }
    id
}

/// After a two-byte prefix comes the rest of the text.
proof fn lemma_trailing_after_prefix(prefix: Seq<char>, rest: Seq<char>)
    requires
        encode_utf8(prefix).len() == 2,
    ensures
        trailing_bytes(prefix + rest, 2) == rest,
{
    lemma_encode_utf8_concat(prefix, rest);
    let b = encode_utf8(prefix + rest);
    assert(b.subrange(2, b.len() as int) =~= encode_utf8(rest));
    encode_utf8_decode_utf8(rest);
}

/// The UTF-8 form of a concatenation is the concatenation of the forms.
pub proof fn lemma_encode_utf8_concat(a: Seq<char>, b: Seq<char>)
    ensures
        encode_utf8(a + b) == encode_utf8(a) + encode_utf8(b),
    decreases a.len(),
{
    if a.len() == 0 {
        assert(a + b =~= b);
        assert(encode_utf8(a) =~= Seq::<u8>::empty());
        assert(encode_utf8(a) + encode_utf8(b) =~= encode_utf8(b));
    } else {
        lemma_encode_utf8_concat(a.drop_first(), b);
        assert((a + b).drop_first() =~= a.drop_first() + b);
        assert((a + b)[0] == a[0]);
        assert(encode_utf8(a + b) =~= encode_utf8(a) + encode_utf8(b));
    }
}


/// The confirmation returned once an account is stored.
pub fn inserted_user_message(id: &str) -> (message: String)
    ensures
        message@ == "User inserted with ID: "@ + id@,
{
    let mut message = String::from_str("User inserted with ID: ");
    message.append(id);
    message
}

/// The stored form of an encrypted password: salt, nonce and ciphertext
/// texts joined by `|`.
pub open spec fn spec_stored_entry(master: Seq<char>, password: Seq<char>, salt: Seq<char>, nonce: Seq<u8>) -> Seq<char> {
    let (a, b, c) = spec_encrypt_password(master, password, salt, nonce);
    join3(a, b, c)
}

/// Encrypts `password` under a fresh salt and nonce and joins the three
/// texts with `|`, as they are stored. The entry has three pieces, and the
/// last decodes to the password's UTF-8 length plus the 16-byte tag.
pub fn encrypted_entry(master_password: String, password: String) -> (entry: String)
    requires
        encryptable(master_password@, password@),
    ensures
        exists|salt: Seq<char>, nonce: Seq<u8>|
            is_generated_salt(salt) && nonce.len() == NONCE_LEN
                && sealed_len_matches(master_password@, password@, salt, nonce)
                && entry@ == #[trigger] spec_stored_entry(master_password@, password@, salt, nonce),
        split_on(entry@, '|').len() == 3,
        b64_decode(encode_utf8(split_on(entry@, '|')[2])) matches Some(c)
            && c.len() == encode_utf8(password@).len() + TAG_LEN,
{
    let ghost master = master_password@;
    let ghost plain = password@;
    let (salt, nonce, ciphertext) = encrypt_password(master_password, password);
    let entry = join_with_bars(salt.as_str(), nonce.as_str(), ciphertext.as_str());
    proof {
        let (s, n) = choose|s: Seq<char>, n: Seq<u8>|
            is_generated_salt(s) && n.len() == NONCE_LEN && sealed_len_matches(master, plain, s, n)
                && (salt@, nonce@, ciphertext@) == #[trigger] spec_encrypt_password(master, plain, s, n);
        assert(entry@ == spec_stored_entry(master, plain, s, n));
        assert(split_on(entry@, '|') == seq![salt@, nonce@, ciphertext@]) by {
            lemma_stored_entry_parts(master, plain, s, n);
        }
    }
    entry
}

/// Splitting a stored entry gives back its three texts.
pub proof fn lemma_stored_entry_parts(master: Seq<char>, password: Seq<char>, salt: Seq<char>, nonce: Seq<u8>)
    ensures
        ({
            let (a, b, c) = spec_encrypt_password(master, password, salt, nonce);
            split_on(spec_stored_entry(master, password, salt, nonce), '|') == seq![a, b, c]
        }),
{
    let (a, b, c) = spec_encrypt_password(master, password, salt, nonce);
    lemma_b64_encode_chars(encode_utf8(salt));
    lemma_b64_encode_chars(nonce);
    lemma_b64_encode_chars(
        crate::crypto::aes256gcm_seal(crate::auth::spec_derive_key(master, salt), nonce, encode_utf8(password)),
    );
    assert(free_of(a, '|'));
    assert(free_of(b, '|'));
    assert(free_of(c, '|'));
    lemma_split_join3(a, b, c);
}

/// What reading one stored entry gives: the password, or the message that
/// is reported for the website.
pub open spec fn spec_read_entry(master: Seq<char>, website: Seq<char>, stored: Seq<char>) -> Result<Seq<char>, Seq<char>> {
    let parts = split_on(stored, '|');
    if parts.len() >= 3 {
        match spec_decrypt_password(master, parts[0], parts[1], parts[2]) {
            Ok(p) => Ok(p),
            Err(e) => Err("Error decrypting password for "@ + website + ": "@ + e),
        }
    } else {
        Err("Password format error for "@ + website)
    }
}

/// A stored entry whose first three pieces decryption accepts.
pub open spec fn entry_decryptable(master: Seq<char>, stored: Seq<char>) -> bool {
    let parts = split_on(stored, '|');
    parts.len() >= 3 ==> decryptable(master, parts[0], parts[1], parts[2])
}

/// Every entry produced by encryption is one that decryption accepts.
pub proof fn lemma_stored_entry_decryptable(master: Seq<char>, password: Seq<char>, salt: Seq<char>, nonce: Seq<u8>)
    requires
        encryptable(master, password),
        usable_salt_and_nonce(salt, nonce),
    ensures
        entry_decryptable(master, spec_stored_entry(master, password, salt, nonce)),
{
    lemma_stored_entry_parts(master, password, salt, nonce);
    crate::auth::lemma_encrypted_decryptable(master, password, salt, nonce);
}

/// Reads one stored entry for a website. An entry that `encrypted_entry`
/// produced under the same master secret gives the password back.
pub fn read_entry(master_password: &String, website: &String, stored: &String) -> (res: Result<String, String>)
    requires
        entry_decryptable(master_password@, stored@),
    ensures
        text_result(res) == spec_read_entry(master_password@, website@, stored@),
        forall|password: Seq<char>, salt: Seq<char>, nonce: Seq<u8>|
            encryptable(master_password@, password) && usable_salt_and_nonce(salt, nonce)
                && stored@ == #[trigger] spec_stored_entry(master_password@, password, salt, nonce)
                ==> text_result(res) == Ok::<Seq<char>, Seq<char>>(password),
        split_on(stored@, '|').len() < 3 ==> match res {
            Ok(_) => false,
            Err(e) => e@ == "Password format error for "@ + website@,
        },
        res matches Ok(p) ==> {
            let parts = split_on(stored@, '|');
            &&& parts.len() >= 3
            &&& b64_decode(encode_utf8(parts[0])) matches Some(ds)
            &&& valid_utf8(ds)
            &&& b64_decode(encode_utf8(parts[1])) matches Some(dn)
            &&& b64_decode(encode_utf8(parts[2])) matches Some(dc)
            &&& aes256gcm_open(argon2_raw_key(encode_utf8(master_password@), ds, DERIVED_KEY_LEN as nat), dn, dc)
                == Some(encode_utf8(p@))
        },
        split_on(stored@, '|').len() >= 3 ==> (res matches Err(e) ==> exists|reason: Seq<char>|
            e@ == "Error decrypting password for "@ + website@ + ": "@ + reason),
{
    let parts = split_text(stored.as_str(), '|');
    let ghost pieces = split_on(stored@, '|');
    assert(parts@.len() == pieces.len());
    if parts.len() >= 3 {
        assert(parts@[0]@ == pieces[0] && parts@[1]@ == pieces[1] && parts@[2]@ == pieces[2]);
        let salt = parts[0].clone();
        let nonce = parts[1].clone();
        let ciphertext = parts[2].clone();
        let decrypted = decrypt_password(master_password, salt, nonce, ciphertext);
        let res = match decrypted {
            Ok(p) => Ok(p),
            Err(e) => {
                let mut message = String::from_str("Error decrypting password for ");
                message.append(website.as_str());
                message.append(": ");
                message.append(e.as_str());
                Err(message)
            },
        };
        assert forall|password: Seq<char>, salt: Seq<char>, nonce: Seq<u8>|
            encryptable(master_password@, password) && usable_salt_and_nonce(salt, nonce)
                && stored@ == #[trigger] spec_stored_entry(master_password@, password, salt, nonce)
                implies text_result(res) == Ok::<Seq<char>, Seq<char>>(password) by {
            lemma_stored_entry_parts(master_password@, password, salt, nonce);
            assert(encrypted_from(master_password@, pieces[0], pieces[1], pieces[2], password, salt, nonce));
        }
        res
    } else {
        let mut message = String::from_str("Password format error for ");
        message.append(website.as_str());
        assert forall|password: Seq<char>, salt: Seq<char>, nonce: Seq<u8>|
            encryptable(master_password@, password) && usable_salt_and_nonce(salt, nonce)
                && stored@ == #[trigger] spec_stored_entry(master_password@, password, salt, nonce)
                implies false by {
            lemma_stored_entry_parts(master_password@, password, salt, nonce);
        }
        Err(message)
    }
}


/// Tells whether decryption accepts the stored entry under this master
/// secret (reading an entry it does not accept would stop the program).
pub fn entry_is_decryptable(master_password: &String, stored: &String) -> (ok: bool)
    ensures
        ok == entry_decryptable(master_password@, stored@),
{
    let parts = split_text(stored.as_str(), '|');
    let ghost pieces = split_on(stored@, '|');
    if parts.len() < 3 {
        return true;
    }
    assert(parts@[0]@ == pieces[0] && parts@[1]@ == pieces[1] && parts@[2]@ == pieces[2]);
    let ds = b64_decode_exec(parts[0].as_str().as_bytes());
    proof { lemma_b64_decode_result(encode_utf8(pieces[0]), ds); }
    let dn = b64_decode_exec(parts[1].as_str().as_bytes());
    proof { lemma_b64_decode_result(encode_utf8(pieces[1]), dn); }
    let dc = b64_decode_exec(parts[2].as_str().as_bytes());
    proof { lemma_b64_decode_result(encode_utf8(pieces[2]), dc); }
    match (ds, dn, dc) {
        (Ok(s), Ok(n), Ok(_)) => {
            let salt_is_text = match str_from_utf8(s.as_slice()) {
                Ok(_) => true,
                Err(_) => false,
            };
            if !salt_is_text {
                return true;
            }
            let master_len = master_password.as_str().as_bytes().len();
            (master_len as u64) <= ARGON2_MAX_PASSWORD_LEN && ARGON2_MIN_SALT_LEN <= (s.len() as u64)
                && (s.len() as u64) <= ARGON2_MAX_SALT_LEN && (n.len() as u64) == NONCE_LEN
        },
        _ => true,
    }
}

/// A row as read from the store: the entry's id, website and stored text,
/// or the text of the error that reading it gave.
pub open spec fn row_view(row: Result<(i64, String, String), String>) -> Result<(i64, Seq<char>, Seq<char>), Seq<char>> {
    match row {
        Ok((id, website, stored)) => Ok((id, website@, stored@)),
        Err(e) => Err(e@),
    }
}

/// An entry as handed back: its id, website and password.
pub open spec fn entry_view(e: (i64, String, String)) -> (i64, Seq<char>, Seq<char>) {
    (e.0, e.1@, e.2@)
}

/// The passwords of an account and the messages reported on the way, for
/// the rows read from the store: each readable entry gives its password;
/// a row that could not be read, an entry without three pieces, and an
/// entry that does not decrypt each give one message, in row order.
pub open spec fn spec_account_passwords(
    master: Seq<char>,
    rows: Seq<Result<(i64, Seq<char>, Seq<char>), Seq<char>>>,
) -> (Seq<(i64, Seq<char>, Seq<char>)>, Seq<Seq<char>>)
    decreases rows.len(),
{
    if rows.len() == 0 {
        (seq![], seq![])
    } else {
        let (found, notes) = spec_account_passwords(master, rows.drop_last());
        match rows.last() {
            Err(e) => (found, notes.push("Error retrieving account: "@ + e)),
            Ok((id, website, stored)) => match spec_read_entry(master, website, stored) {
                Ok(p) => (found.push((id, website, p)), notes),
                Err(m) => (found, notes.push(m)),
            },
        }
    }
}

/// Reading rows one batch after another gives the entries and messages of
/// the first batch followed by those of the second.
pub proof fn lemma_account_passwords_append(
    master: Seq<char>,
    a: Seq<Result<(i64, Seq<char>, Seq<char>), Seq<char>>>,
    b: Seq<Result<(i64, Seq<char>, Seq<char>), Seq<char>>>,
)
    ensures
        spec_account_passwords(master, a + b).0 == spec_account_passwords(master, a).0
            + spec_account_passwords(master, b).0,
        spec_account_passwords(master, a + b).1 == spec_account_passwords(master, a).1
            + spec_account_passwords(master, b).1,
    decreases b.len(),
{
    if b.len() == 0 {
        assert(a + b =~= a);
        assert(spec_account_passwords(master, a).0 + spec_account_passwords(master, b).0
            =~= spec_account_passwords(master, a).0);
        assert(spec_account_passwords(master, a).1 + spec_account_passwords(master, b).1
            =~= spec_account_passwords(master, a).1);
    } else {
        lemma_account_passwords_append(master, a, b.drop_last());
        assert((a + b).drop_last() =~= a + b.drop_last());
        assert((a + b).last() == b.last());
        let (fa, na) = spec_account_passwords(master, a);
        let (fb, nb) = spec_account_passwords(master, b.drop_last());
        match b.last() {
            Err(e) => {
                assert((na + nb).push("Error retrieving account: "@ + e) =~= na + nb.push("Error retrieving account: "@ + e));
            },
            Ok((id, website, stored)) => match spec_read_entry(master, website, stored) {
                Ok(p) => {
                    assert((fa + fb).push((id, website, p)) =~= fa + fb.push((id, website, p)));
                },
                Err(m) => {
                    assert((na + nb).push(m) =~= na + nb.push(m));
                },
            },
        }
    }
}

/// One row gives one thing: its entry with the password it reads back as,
/// or one message.
pub proof fn lemma_account_passwords_single(master: Seq<char>, row: Result<(i64, Seq<char>, Seq<char>), Seq<char>>)
    ensures
        spec_account_passwords(master, seq![row]).0.len() + spec_account_passwords(master, seq![row]).1.len() == 1,
        row matches Ok((id, website, stored)) ==> (spec_read_entry(master, website, stored) matches Ok(p)
            ==> spec_account_passwords(master, seq![row]).0 == seq![(id, website, p)]),
        row matches Ok((id, website, stored)) ==> (spec_read_entry(master, website, stored) matches Err(m)
            ==> spec_account_passwords(master, seq![row]).1 == seq![m]),
        row matches Err(e) ==> spec_account_passwords(master, seq![row]).1 == seq!["Error retrieving account: "@ + e],
{
    let empty = Seq::<Result<(i64, Seq<char>, Seq<char>), Seq<char>>>::empty();
    assert(seq![row].drop_last() =~= empty);
    assert(spec_account_passwords(master, empty) == (Seq::<(i64, Seq<char>, Seq<char>)>::empty(), Seq::<Seq<char>>::empty()));
    assert(seq![row].last() == row);
}

/// Every row gives exactly one entry or one message.
pub proof fn lemma_account_passwords_count(master: Seq<char>, rows: Seq<Result<(i64, Seq<char>, Seq<char>), Seq<char>>>)
    ensures
        spec_account_passwords(master, rows).0.len() + spec_account_passwords(master, rows).1.len() == rows.len(),
    decreases rows.len(),
{
    if rows.len() > 0 {
        lemma_account_passwords_count(master, rows.drop_last());
    }
}

/// A row whose entry reads back as a password puts its id, website and
/// that password into the result, after the entries of the rows before it.
pub proof fn lemma_account_passwords_keeps_readable(
    master: Seq<char>,
    rows: Seq<Result<(i64, Seq<char>, Seq<char>), Seq<char>>>,
    i: int,
)
    requires
        0 <= i < rows.len(),
    ensures
        rows[i] matches Ok((id, website, stored)) ==> (spec_read_entry(master, website, stored) matches Ok(p)
            ==> spec_account_passwords(master, rows.take(i)).0.len() < spec_account_passwords(master, rows).0.len()
            && spec_account_passwords(master, rows).0[spec_account_passwords(master, rows.take(i)).0.len() as int]
            == (id, website, p)),
{
    let a = rows.take(i);
    let b = rows.skip(i);
    assert(rows =~= a + b);
    lemma_account_passwords_append(master, a, b);
    let r = seq![rows[i]];
    let c = rows.skip(i + 1);
    assert(b =~= r + c);
    lemma_account_passwords_append(master, r, c);
    lemma_account_passwords_single(master, rows[i]);
}

/// Every row that was read holds an entry that decryption accepts.
pub open spec fn rows_decryptable(master: Seq<char>, rows: Seq<Result<(i64, String, String), String>>) -> bool {
    forall|i: int|
        0 <= i < rows.len() ==> (#[trigger] rows[i] matches Ok((_, _, stored)) ==> entry_decryptable(master, stored@))
}

/// Row `i` holds an entry that encryption produced for `password`.
pub open spec fn row_sealed_from(
    master: Seq<char>,
    rows: Seq<Result<(i64, String, String), String>>,
    i: int,
    password: Seq<char>,
    salt: Seq<char>,
    nonce: Seq<u8>,
) -> bool {
    &&& 0 <= i < rows.len()
    &&& rows[i] is Ok
    &&& encryptable(master, password)
    &&& usable_salt_and_nonce(salt, nonce)
    &&& rows[i]->Ok_0.2@ == spec_stored_entry(master, password, salt, nonce)
}

/// The entries handed back include, for every row sealed from a password,
/// that row's id and website with the password.
proof fn lemma_found_has_sealed_rows(
    master: Seq<char>,
    rows: Seq<Result<(i64, String, String), String>>,
    found: Seq<(i64, String, String)>,
)
    requires
        found.map_values(|e: (i64, String, String)| entry_view(e))
            == spec_account_passwords(master, rows.map_values(|r: Result<(i64, String, String), String>| row_view(r))).0,
        forall|i: int, password: Seq<char>, salt: Seq<char>, nonce: Seq<u8>|
            #[trigger] row_sealed_from(master, rows, i, password, salt, nonce)
                ==> spec_read_entry(master, rows[i]->Ok_0.1@, rows[i]->Ok_0.2@) == Ok::<Seq<char>, Seq<char>>(password),
    ensures
        forall|i: int, password: Seq<char>, salt: Seq<char>, nonce: Seq<u8>|
            #[trigger] row_sealed_from(master, rows, i, password, salt, nonce)
                ==> exists|j: int| 0 <= j < found.len()
                && #[trigger] entry_view(found[j]) == (rows[i]->Ok_0.0, rows[i]->Ok_0.1@, password),
{
    let views = rows.map_values(|r: Result<(i64, String, String), String>| row_view(r));
    let fv = found.map_values(|e: (i64, String, String)| entry_view(e));
    assert forall|k: int, password: Seq<char>, salt: Seq<char>, nonce: Seq<u8>|
        #[trigger] row_sealed_from(master, rows, k, password, salt, nonce)
            implies exists|j: int| 0 <= j < found.len()
            && #[trigger] entry_view(found[j]) == (rows[k]->Ok_0.0, rows[k]->Ok_0.1@, password) by {
        lemma_account_passwords_keeps_readable(master, views, k);
        assert(views[k] == row_view(rows[k]));
        let j = spec_account_passwords(master, views.take(k)).0.len() as int;
        assert(fv[j] == entry_view(found[j]));
    }
}

/// Reads back the passwords of an account from its rows, with the messages
/// to report for rows that give no password. A row whose entry encryption
/// produced under the same master secret reads back as its password.
pub fn account_passwords(
    master_password: &String,
    rows: &Vec<Result<(i64, String, String), String>>,
) -> (res: (Vec<(i64, String, String)>, Vec<String>))
    requires
        rows_decryptable(master_password@, rows@),
    ensures
        (res.0@.map_values(|e: (i64, String, String)| entry_view(e)), texts(res.1@))
            == spec_account_passwords(master_password@, rows@.map_values(|r: Result<(i64, String, String), String>| row_view(r))),
        forall|i: int, password: Seq<char>, salt: Seq<char>, nonce: Seq<u8>|
            #[trigger] row_sealed_from(master_password@, rows@, i, password, salt, nonce)
                ==> spec_read_entry(master_password@, rows@[i]->Ok_0.1@, rows@[i]->Ok_0.2@)
                == Ok::<Seq<char>, Seq<char>>(password),
        res.0@.len() + res.1@.len() == rows@.len(),
        forall|i: int, password: Seq<char>, salt: Seq<char>, nonce: Seq<u8>|
            #[trigger] row_sealed_from(master_password@, rows@, i, password, salt, nonce)
                ==> exists|j: int| 0 <= j < res.0@.len()
                && #[trigger] entry_view(res.0@[j]) == (rows@[i]->Ok_0.0, rows@[i]->Ok_0.1@, password),
{
    let ghost views = rows@.map_values(|r: Result<(i64, String, String), String>| row_view(r));
    let mut found: Vec<(i64, String, String)> = Vec::new();
    let mut notes: Vec<String> = Vec::new();
    let mut i: usize = 0;
    while i < rows.len()
        invariant
            i <= rows@.len(),
            views == rows@.map_values(|r: Result<(i64, String, String), String>| row_view(r)),
            rows_decryptable(master_password@, rows@),
            (found@.map_values(|e: (i64, String, String)| entry_view(e)), texts(notes@))
                == spec_account_passwords(master_password@, views.take(i as int)),
            forall|k: int, password: Seq<char>, salt: Seq<char>, nonce: Seq<u8>|
                k < i && #[trigger] row_sealed_from(master_password@, rows@, k, password, salt, nonce)
                    ==> spec_read_entry(master_password@, rows@[k]->Ok_0.1@, rows@[k]->Ok_0.2@)
                    == Ok::<Seq<char>, Seq<char>>(password),
        decreases rows@.len() - i,
    {
        let ghost before_found = found@.map_values(|e: (i64, String, String)| entry_view(e));
        let ghost before_notes = texts(notes@);
        assert(views.take(i as int + 1).drop_last() =~= views.take(i as int));
        assert(views.take(i as int + 1).last() == row_view(rows@[i as int]));
        match &rows[i] {
            Ok((id, website, stored)) => {
                assert(rows@[i as int] matches Ok((_, _, st)) && st == *stored);
                let read = read_entry(master_password, website, stored);
                assert forall|k: int, password: Seq<char>, salt: Seq<char>, nonce: Seq<u8>|
                    k < i + 1 && #[trigger] row_sealed_from(master_password@, rows@, k, password, salt, nonce)
                        implies spec_read_entry(master_password@, rows@[k]->Ok_0.1@, rows@[k]->Ok_0.2@)
                        == Ok::<Seq<char>, Seq<char>>(password) by {
                    if k == i {
                        assert(stored@ == spec_stored_entry(master_password@, password, salt, nonce));
                    }
                }
                match read {
                    Ok(p) => {
                        found.push((*id, website.clone(), p));
                        assert(found@.map_values(|e: (i64, String, String)| entry_view(e))
                            =~= before_found.push((*id, website@, p@)));
                    },
                    Err(m) => {
                        notes.push(m);
                        assert(texts(notes@) =~= before_notes.push(m@));
                    },
                }
            },
            Err(e) => {
                assert forall|k: int, password: Seq<char>, salt: Seq<char>, nonce: Seq<u8>|
                    k < i + 1 && #[trigger] row_sealed_from(master_password@, rows@, k, password, salt, nonce)
                        implies spec_read_entry(master_password@, rows@[k]->Ok_0.1@, rows@[k]->Ok_0.2@)
                        == Ok::<Seq<char>, Seq<char>>(password) by {
                    assert(k != i);
                }
                let mut message = String::from_str("Error retrieving account: ");
                message.append(e.as_str());
                notes.push(message);
                assert(texts(notes@) =~= before_notes.push("Error retrieving account: "@ + e@));
            },
        }
        i = i + 1;
    }
    assert(views.take(i as int) =~= views);
    proof {
        lemma_account_passwords_count(master_password@, views);
        lemma_found_has_sealed_rows(master_password@, rows@, found@);
    }
    (found, notes)
}


/// Tells whether byte offset 2 falls between characters of `s`.
pub fn splits_after_two_bytes(s: &str) -> (ok: bool)
    ensures
        ok == splits_at_two(s@),
{
    s.is_char_boundary(2)
}

/// Tells whether the identifiers can be counted on (see `ids_countable`).
pub fn ids_can_be_counted(existing_ids: &Vec<String>) -> (ok: bool)
    ensures
        ok == ids_countable(texts(existing_ids@)),
{
    let ghost ids = texts(existing_ids@);
    let mut max_number: i32 = 0;
    let mut i: usize = 0;
    while i < existing_ids.len()
        invariant
            ids == texts(existing_ids@),
            i <= existing_ids@.len(),
            forall|k: int| 0 <= k < i ==> splits_at_two(#[trigger] ids[k]),
            max_number == max_id_number(ids.take(i as int)),
        decreases existing_ids@.len() - i,
    {
        assert(ids[i as int] == existing_ids@[i as int]@);
        if !existing_ids[i].as_str().is_char_boundary(2) {
            return false;
        }
        let number = id_number(existing_ids[i].as_str());
        assert(ids.take(i as int + 1).drop_last() =~= ids.take(i as int));
        assert(ids.take(i as int + 1).last() == ids[i as int]);
        if number > max_number {
            max_number = number;
        }
        i = i + 1;
    }
    assert(ids.take(i as int) =~= ids);
    max_number < i32::MAX
}

} // verus!
