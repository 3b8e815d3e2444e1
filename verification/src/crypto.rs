//! The sealed-file format: XChaCha20-Poly1305 encryption of an env file,
//! Argon2id key derivation for password mode, and the armored text form of
//! an encrypted file (a magic line, `name: value` headers, a blank line and
//! the base64 ciphertext wrapped at 76 columns).

use chacha20poly1305::aead::{Aead, KeyInit, Payload};
use chacha20poly1305::{XChaCha20Poly1305, XNonce};
use rand::RngCore;
use vstd::prelude::*;
use vstd::string::StringSliceAdditionalSpecFns;

use crate::b64::{b64_decode, b64_decoding, b64_encode, b64_encoding, b64_text, is_b64_char};
use crate::text::{
    chars_eq, chars_of, copy_range, find, find_char, lacks, lemma_find_at, lemma_lines_cons,
    lemma_trim_end_no_ws, lemma_trim_no_ws, lemma_trim_space_prefix, lemma_trim_start_no_ws,
    lines, no_ws, split_lines, split_once, string_of, trim, trim_chars,
};

verus! {

pub const KEY_LEN: usize = 32;

pub const NONCE_LEN: usize = 24;

pub const SALT_LEN: usize = 16;

/// Width of the base64 body lines.
pub const WRAP_COLS: usize = 76;

// ---------------------------------------------------------------------------
// Outside primitives
// ---------------------------------------------------------------------------

/// What XChaCha20-Poly1305 encryption produces (ciphertext with its tag).
pub uninterp spec fn xchacha_sealed(key: Seq<u8>, nonce: Seq<u8>, msg: Seq<u8>, aad: Seq<u8>) -> Seq<u8>;

/// What XChaCha20-Poly1305 decryption produces: `None` when the tag does
/// not authenticate the ciphertext and associated data under the key.
pub uninterp spec fn xchacha_opened(key: Seq<u8>, nonce: Seq<u8>, ct: Seq<u8>, aad: Seq<u8>) -> Option<Seq<u8>>;

/// The Argon2id key (default parameters, 32 bytes) for a password and salt.
pub uninterp spec fn argon2id_key(password: Seq<u8>, salt: Seq<u8>) -> Seq<u8>;

/// Fills an array from the operating system's random source
/// (`rand::rngs::OsRng::fill_bytes`). Nothing is claimed of the bytes;
/// `fill_bytes` panics if the OS source fails.
#[verifier::external_body]
pub fn random_bytes<const N: usize>() -> (r: [u8; N]) {
    let mut buf = [0u8; N];
    rand::rngs::OsRng.fill_bytes(&mut buf);
    buf
}

/// Calls `XChaCha20Poly1305::encrypt` (the `aead::Aead` impl). Claimed: it
/// fails only when the message reaches the ChaCha20 block-counter limit
/// (`len / 64 >= u32::MAX`); otherwise the result is the encryption of
/// these inputs, the message followed by a 16-byte tag, and decryption of
/// it with the same key, nonce and associated data gives the message back.
#[verifier::external_body]
fn xchacha_encrypt(key: &[u8; KEY_LEN], nonce: &[u8; NONCE_LEN], msg: &[u8], aad: &[u8]) -> (r:
    Option<Vec<u8>>)
    ensures
        r is Some <==> msg@.len() / 64 < 0xffff_ffff,
        r matches Some(c) ==> {
            &&& c@ == xchacha_sealed(key@, nonce@, msg@, aad@)
            &&& c@.len() == msg@.len() + 16
            &&& xchacha_opened(key@, nonce@, c@, aad@) == Some(msg@)
        },
{
    let cipher = XChaCha20Poly1305::new(key.into());
    match cipher.encrypt(XNonce::from_slice(nonce), Payload { msg, aad }) {
        Ok(c) => Some(c),
        Err(_) => None,
    }
}

/// Calls `XChaCha20Poly1305::decrypt`. Claimed: it returns exactly the
/// decryption of these inputs, failing when that is undefined.
#[verifier::external_body]
fn xchacha_decrypt(key: &[u8; KEY_LEN], nonce: &[u8; NONCE_LEN], ct: &[u8], aad: &[u8]) -> (r:
    Option<Vec<u8>>)
    ensures
        match r {
            Some(p) => xchacha_opened(key@, nonce@, ct@, aad@) == Some(p@),
            None => xchacha_opened(key@, nonce@, ct@, aad@) is None,
        },
{
    let cipher = XChaCha20Poly1305::new(key.into());
    match cipher.decrypt(XNonce::from_slice(nonce), Payload { msg: ct, aad }) {
        Ok(p) => Some(p),
        Err(_) => None,
    }
}

/// Calls `argon2::Argon2::default().hash_password_into` with a 32-byte
/// output. Claimed, from its input checks: it fails exactly when the salt
/// is shorter than 8 or longer than `u32::MAX` bytes or the password is
/// longer than `u32::MAX` bytes, and otherwise yields the Argon2id key of
/// the password and salt. The error is carried as its rendered message.
#[verifier::external_body]
fn argon2_hash_into(password: &[u8], salt: &[u8]) -> (r: Result<[u8; KEY_LEN], String>)
    ensures
        r is Ok <==> (8 <= salt@.len() <= 0xffff_ffff && password@.len() <= 0xffff_ffff),
        r matches Ok(k) ==> k@ == argon2id_key(password@, salt@),
{
    let mut key = [0u8; KEY_LEN];
    match argon2::Argon2::default().hash_password_into(password, salt, &mut key) {
        Ok(()) => Ok(key),
        Err(e) => Err(format!("{e}")),
    }
}

// ---------------------------------------------------------------------------
// Types
// ---------------------------------------------------------------------------

/// How the encryption key is obtained, recorded in the file header so
/// decryption knows what to ask for.
#[derive(Clone, Copy, PartialEq, Debug)]
pub enum KeyMode {
    Keychain,
    Password { salt: [u8; SALT_LEN] },
}

pub enum ModeView {
    Keychain,
    Password(Seq<u8>),
}

impl View for KeyMode {
    type V = ModeView;

    open spec fn view(&self) -> ModeView {
        match self {
            KeyMode::Keychain => ModeView::Keychain,
            KeyMode::Password { salt } => ModeView::Password(salt@),
        }
    }
}

pub struct EncFile {
    pub mode: KeyMode,
    pub nonce: [u8; NONCE_LEN],
    pub ciphertext: Vec<u8>,
}

pub struct EncFileView {
    pub mode: ModeView,
    pub nonce: Seq<u8>,
    pub ciphertext: Seq<u8>,
}

impl View for EncFile {
    type V = EncFileView;

    open spec fn view(&self) -> EncFileView {
        EncFileView { mode: self.mode@, nonce: self.nonce@, ciphertext: self.ciphertext@ }
    }
}

/// Failures of encryption, decryption and key derivation.
#[derive(Debug)]
pub enum CryptoError {
    /// Argon2 refused its inputs; its message.
    KeyDerivation(String),
    /// The plaintext is too long for the cipher.
    Encryption,
    /// Wrong key or password, or the file was tampered with or moved.
    Decryption,
}

// ---------------------------------------------------------------------------
// Encryption
// ---------------------------------------------------------------------------

/// Derive a key from a password with Argon2id.
pub fn derive_key(password: &str, salt: &[u8]) -> (r: Result<[u8; KEY_LEN], CryptoError>)
    ensures
        r is Ok <==> (8 <= salt@.len() <= 0xffff_ffff && password.spec_bytes().len()
            <= 0xffff_ffff),
        r matches Ok(k) ==> k@ == argon2id_key(password.spec_bytes(), salt@),
        r matches Err(e) ==> e is KeyDerivation,
{
    match argon2_hash_into(password.as_bytes(), salt) {
        Ok(k) => Ok(k),
        Err(msg) => Err(CryptoError::KeyDerivation(msg)),
    }
}

/// What decrypting an encrypted file yields.
pub open spec fn open_spec(key: Seq<u8>, enc: EncFileView, aad: Seq<u8>) -> Option<Seq<u8>> {
    xchacha_opened(key, enc.nonce, enc.ciphertext, aad)
}

/// Encrypt `plaintext` with a fresh nonce. `aad` binds the ciphertext to its
/// location so an .enc file can't be silently moved to another path.
/// Opening the result with the same key and `aad` gives the plaintext back.
pub fn seal(key: &[u8; KEY_LEN], plaintext: &[u8], aad: &[u8], mode: KeyMode) -> (r: Result<
    EncFile,
    CryptoError,
>)
    ensures
        r is Ok <==> plaintext@.len() / 64 < 0xffff_ffff,
        r matches Ok(e) ==> {
            &&& e.mode == mode
            &&& e.ciphertext@ == xchacha_sealed(key@, e.nonce@, plaintext@, aad@)
            &&& e.ciphertext@.len() == plaintext@.len() + 16
            &&& open_spec(key@, e@, aad@) == Some(plaintext@)
        },
        r matches Err(e) ==> e is Encryption,
{
    let nonce = random_bytes::<NONCE_LEN>();
    match xchacha_encrypt(key, &nonce, plaintext, aad) {
        Some(ciphertext) => Ok(EncFile { mode, nonce, ciphertext }),
        None => Err(CryptoError::Encryption),
    }
}

/// Decrypt an encrypted file with `key` and the location binding `aad`.
pub fn open(key: &[u8; KEY_LEN], enc: &EncFile, aad: &[u8]) -> (r: Result<Vec<u8>, CryptoError>)
    ensures
        match open_spec(key@, enc@, aad@) {
            Some(p) => r matches Ok(v) && v@ == p,
            None => r matches Err(e) && e is Decryption,
        },
{
    match xchacha_decrypt(key, &enc.nonce, enc.ciphertext.as_slice(), aad) {
        Some(p) => Ok(p),
        None => Err(CryptoError::Decryption),
    }
}


// ---------------------------------------------------------------------------
// Armored text form
// ---------------------------------------------------------------------------

/// The first line of every encrypted file.
pub open spec fn magic() -> Seq<char> {
    "SYMMETRY v1"@
}

/// Lines, each followed by a newline.
pub open spec fn join_lines(ls: Seq<Seq<char>>) -> Seq<char>
    decreases ls.len(),
{
    if ls.len() == 0 {
        seq![]
    } else {
        join_lines(ls.drop_last()) + ls.last() + seq!['\n']
    }
}

/// `b` cut into lines of `WRAP_COLS` characters, the last one shorter.
pub open spec fn chunks(b: Seq<char>) -> Seq<Seq<char>>
    decreases b.len(),
{
    if b.len() == 0 {
        seq![]
    } else if b.len() <= 76 {
        seq![b]
    } else {
        seq![b.take(76)] + chunks(b.skip(76))
    }
}

/// The header lines for a key mode and nonce.
pub open spec fn header_lines(m: ModeView, nonce: Seq<u8>) -> Seq<Seq<char>> {
    match m {
        ModeView::Keychain => seq!["key: keychain"@, "nonce: "@ + b64_encoding(nonce)],
        ModeView::Password(salt) => seq![
            "key: password"@,
            "salt: "@ + b64_encoding(salt),
            "nonce: "@ + b64_encoding(nonce),
        ],
    }
}

/// The lines of the armored form: magic, headers, a blank line, and the
/// wrapped base64 ciphertext.
pub open spec fn render_lines(e: EncFileView) -> Seq<Seq<char>> {
    seq![magic()] + header_lines(e.mode, e.nonce) + seq![Seq::<char>::empty()] + chunks(
        b64_encoding(e.ciphertext),
    )
}

/// The armored text of an encrypted file.
pub open spec fn render_spec(e: EncFileView) -> Seq<char> {
    join_lines(render_lines(e))
}

/// Why a text is not a well-formed encrypted file.
pub enum ParseFailure {
    NotEncrypted,
    MalformedHeader(Seq<char>),
    InvalidSalt,
    InvalidNonce,
    MissingSalt,
    UnknownKeyMode(Seq<char>),
    MissingKeyHeader,
    MissingNonce,
    InvalidCiphertext,
    MissingCiphertext,
}

/// Why a fixed-length base64 value was rejected.
#[derive(Debug)]
pub enum FixedDecodeError {
    /// Not base64; the decoder's message.
    Base64(String),
    /// Decoded to the wrong number of bytes.
    Length { expected: usize, got: usize },
}

/// Why `EncFile::parse` rejected a text.
#[derive(Debug)]
pub enum EncParseError {
    NotEncrypted,
    MalformedHeader(String),
    InvalidSalt(FixedDecodeError),
    InvalidNonce(FixedDecodeError),
    MissingSalt,
    UnknownKeyMode(String),
    MissingKeyHeader,
    MissingNonce,
    InvalidCiphertext(String),
    MissingCiphertext,
}

impl View for EncParseError {
    type V = ParseFailure;

    open spec fn view(&self) -> ParseFailure {
        match self {
            EncParseError::NotEncrypted => ParseFailure::NotEncrypted,
            EncParseError::MalformedHeader(l) => ParseFailure::MalformedHeader(l@),
            EncParseError::InvalidSalt(_) => ParseFailure::InvalidSalt,
            EncParseError::InvalidNonce(_) => ParseFailure::InvalidNonce,
            EncParseError::MissingSalt => ParseFailure::MissingSalt,
            EncParseError::UnknownKeyMode(k) => ParseFailure::UnknownKeyMode(k@),
            EncParseError::MissingKeyHeader => ParseFailure::MissingKeyHeader,
            EncParseError::MissingNonce => ParseFailure::MissingNonce,
            EncParseError::InvalidCiphertext(_) => ParseFailure::InvalidCiphertext,
            EncParseError::MissingCiphertext => ParseFailure::MissingCiphertext,
        }
    }
}

/// The headers read so far: the last value of each known header.
pub struct Headers {
    pub key: Option<Seq<char>>,
    pub salt: Option<Seq<u8>>,
    pub nonce: Option<Seq<u8>>,
}

pub open spec fn no_headers() -> Headers {
    Headers { key: None, salt: None, nonce: None }
}

/// The bytes of a base64 value that must decode to exactly `n` bytes.
pub open spec fn decode_fixed_spec(v: Seq<char>, n: nat) -> Option<Seq<u8>> {
    match b64_decoding(v) {
        Some(b) => if b.len() == n {
            Some(b)
        } else {
            None
        },
        None => None,
    }
}

/// One `name: value` header applied; unknown names are ignored.
pub open spec fn apply_header(h: Headers, name: Seq<char>, value: Seq<char>) -> Result<
    Headers,
    ParseFailure,
> {
    if name == "key"@ {
        Ok(Headers { key: Some(value), salt: h.salt, nonce: h.nonce })
    } else if name == "salt"@ {
        match decode_fixed_spec(value, SALT_LEN as nat) {
            Some(s) => Ok(Headers { key: h.key, salt: Some(s), nonce: h.nonce }),
            None => Err(ParseFailure::InvalidSalt),
        }
    } else if name == "nonce"@ {
        match decode_fixed_spec(value, NONCE_LEN as nat) {
            Some(n) => Ok(Headers { key: h.key, salt: h.salt, nonce: Some(n) }),
            None => Err(ParseFailure::InvalidNonce),
        }
    } else {
        Ok(h)
    }
}

/// The headers in lines `i..` up to the first blank line, and the index of
/// that blank line (`ls.len()` when there is none).
pub open spec fn read_headers(ls: Seq<Seq<char>>, i: int, h: Headers) -> Result<
    (Headers, int),
    ParseFailure,
>
    decreases ls.len() - i,
{
    if i < 0 || i >= ls.len() {
        Ok((h, ls.len() as int))
    } else {
        let line = trim(ls[i]);
        if line.len() == 0 {
            Ok((h, i))
        } else {
            match split_once(line, ':') {
                None => Err(ParseFailure::MalformedHeader(line)),
                Some(nv) => match apply_header(h, trim(nv.0), trim(nv.1)) {
                    Err(f) => Err(f),
                    Ok(h2) => read_headers(ls, i + 1, h2),
                },
            }
        }
    }
}

/// The key mode the headers describe.
pub open spec fn mode_from(h: Headers) -> Result<ModeView, ParseFailure> {
    match h.key {
        None => Err(ParseFailure::MissingKeyHeader),
        Some(k) => if k == "keychain"@ && h.salt is None {
            Ok(ModeView::Keychain)
        } else if k == "password"@ {
            match h.salt {
                Some(s) => Ok(ModeView::Password(s)),
                None => Err(ParseFailure::MissingSalt),
            }
        } else {
            Err(ParseFailure::UnknownKeyMode(k))
        },
    }
}

/// The trimmed lines, concatenated.
pub open spec fn concat_trimmed(ls: Seq<Seq<char>>) -> Seq<char>
    decreases ls.len(),
{
    if ls.len() == 0 {
        seq![]
    } else {
        trim(ls[0]) + concat_trimmed(ls.drop_first())
    }
}

/// The lines after the blank line that ends the headers.
pub open spec fn body_lines(ls: Seq<Seq<char>>, end: int) -> Seq<Seq<char>> {
    if end < ls.len() {
        ls.skip(end + 1)
    } else {
        seq![]
    }
}

/// What an armored text denotes: the encrypted file, or why it is not one.
pub open spec fn parse_spec(text: Seq<char>) -> Result<EncFileView, ParseFailure> {
    let ls = lines(text);
    if ls.len() == 0 || trim(ls[0]) != magic() {
        Err(ParseFailure::NotEncrypted)
    } else {
        match read_headers(ls, 1, no_headers()) {
            Err(f) => Err(f),
            Ok(he) => match mode_from(he.0) {
                Err(f) => Err(f),
                Ok(m) => match he.0.nonce {
                    None => Err(ParseFailure::MissingNonce),
                    Some(n) => match b64_decoding(concat_trimmed(body_lines(ls, he.1))) {
                        None => Err(ParseFailure::InvalidCiphertext),
                        Some(c) => if c.len() == 0 {
                            Err(ParseFailure::MissingCiphertext)
                        } else {
                            Ok(EncFileView { mode: m, nonce: n, ciphertext: c })
                        },
                    },
                },
            },
        }
    }
}


// ---------------------------------------------------------------------------
// Lemmas for the armored form
// ---------------------------------------------------------------------------

/// A line as `lines` gives it back: no newline, no trailing carriage return.
pub open spec fn plain_line(l: Seq<char>) -> bool {
    lacks(l, '\n') && (l.len() == 0 || l.last() != '\r')
}

proof fn lemma_b64_plain(s: Seq<char>)
    requires
        b64_text(s),
    ensures
        no_ws(s),
        plain_line(s),
        lacks(s, ':'),
{
    assert forall|i: int| 0 <= i < s.len() implies !crate::text::is_ws(#[trigger] s[i]) by {
        assert(is_b64_char(s[i]));
    }
    assert forall|i: int| 0 <= i < s.len() implies s[i] != '\n' && s[i] != ':' by {
        assert(is_b64_char(s[i]));
    }
    if s.len() > 0 {
        assert(is_b64_char(s[s.len() - 1]));
    }
}

proof fn lemma_join_prepend(a: Seq<char>, rest: Seq<Seq<char>>)
    ensures
        join_lines(seq![a] + rest) == a + seq!['\n'] + join_lines(rest),
    decreases rest.len(),
{
    let l = seq![a] + rest;
    if rest.len() == 0 {
        assert(l.drop_last() =~= Seq::<Seq<char>>::empty());
        assert(l.last() == a);
        assert(join_lines(Seq::<Seq<char>>::empty()) == Seq::<char>::empty());
        assert(join_lines(l) =~= a + seq!['\n'] + join_lines(rest));
    } else {
        assert(l.drop_last() =~= seq![a] + rest.drop_last());
        assert(l.last() == rest.last());
        lemma_join_prepend(a, rest.drop_last());
        assert(join_lines(rest) == join_lines(rest.drop_last()) + rest.last() + seq!['\n']);
        assert(join_lines(l) =~= a + seq!['\n'] + join_lines(rest));
    }
}

/// Splitting joined plain lines gives the lines back.
pub proof fn lemma_lines_join(ls: Seq<Seq<char>>)
    requires
        forall|i: int| 0 <= i < ls.len() ==> plain_line(#[trigger] ls[i]),
    ensures
        lines(join_lines(ls)) == ls,
    decreases ls.len(),
{
    if ls.len() > 0 {
        let rest = ls.drop_first();
        assert(ls =~= seq![ls[0]] + rest);
        lemma_join_prepend(ls[0], rest);
        assert(plain_line(ls[0]));
        lemma_lines_cons(ls[0], join_lines(rest));
        assert forall|i: int| 0 <= i < rest.len() implies plain_line(#[trigger] rest[i]) by {
            assert(rest[i] == ls[i + 1]);
        }
        lemma_lines_join(rest);
    }
}

/// Chunks of base64 text are plain base64 lines that trim and concatenate
/// back to the text.
proof fn lemma_chunks(b: Seq<char>)
    requires
        b64_text(b),
    ensures
        forall|i: int| 0 <= i < chunks(b).len() ==> b64_text(#[trigger] chunks(b)[i]),
        concat_trimmed(chunks(b)) == b,
    decreases b.len(),
{
    lemma_b64_plain(b);
    if b.len() == 0 {
    } else if b.len() <= 76 {
        lemma_trim_no_ws(b);
        assert(seq![b].drop_first() =~= Seq::<Seq<char>>::empty());
        assert(seq![b][0] == b);
        assert(concat_trimmed(Seq::<Seq<char>>::empty()) == Seq::<char>::empty());
        assert(concat_trimmed(seq![b]) =~= b);
    } else {
        let head = b.take(76);
        let tail = b.skip(76);
        assert(b64_text(head));
        assert(b64_text(tail));
        lemma_chunks(tail);
        lemma_b64_plain(head);
        lemma_trim_no_ws(head);
        let c = chunks(b);
        assert(c =~= seq![head] + chunks(tail));
        assert(c.drop_first() =~= chunks(tail));
        assert(b =~= head + tail);
        assert forall|i: int| 0 <= i < c.len() implies b64_text(#[trigger] c[i]) by {
            if i > 0 {
                assert(c[i] == chunks(tail)[i - 1]);
            }
        }
    }
}

/// A `name: value` header line, as the parser reads it.
proof fn lemma_header_line(name: Seq<char>, value: Seq<char>)
    requires
        name.len() > 0,
        no_ws(name),
        lacks(name, ':'),
        value.len() > 0,
        no_ws(value),
        lacks(value, '\n'),
        value.last() != '\r',
    ensures
        ({
            let line = name + seq![':', ' '] + value;
            &&& trim(line) == line
            &&& split_once(line, ':') == Some((name, seq![' '] + value))
            &&& trim(name) == name
            &&& trim(seq![' '] + value) == value
            &&& plain_line(line)
        }),
{
    let line = name + seq![':', ' '] + value;
    assert(line[0] == name[0]);
    assert(line.last() == value.last());
    assert(!crate::text::is_ws(name[0]));
    assert(!crate::text::is_ws(value.last()));
    lemma_trim_start_no_ws(line);
    lemma_trim_end_no_ws(line);
    assert forall|j: int| 0 <= j < name.len() implies line[j] != ':' by {
        assert(line[j] == name[j]);
    }
    lemma_find_at(line, ':', name.len() as int);
    assert(line.take(name.len() as int) =~= name);
    assert(line.skip(name.len() + 1int) =~= seq![' '] + value);
    lemma_trim_no_ws(name);
    lemma_trim_space_prefix(value);
    assert forall|j: int| 0 <= j < line.len() implies line[j] != '\n' by {
        if j < name.len() {
            assert(line[j] == name[j]);
        } else if j >= name.len() + 2 {
            assert(line[j] == value[j - name.len() - 2]);
        }
    }
}

/// Facts about the encodings that `render` obtains from the encoder.
pub open spec fn encoded_ok(bytes: Seq<u8>) -> bool {
    &&& b64_decoding(b64_encoding(bytes)) == Some(bytes)
    &&& b64_text(b64_encoding(bytes))
    &&& (bytes.len() > 0 ==> b64_encoding(bytes).len() > 0)
}

/// Parsing the armored text of a file gives the file back, when its
/// ciphertext is not empty.
proof fn lemma_parse_render(e: EncFileView)
    requires
        e.nonce.len() == NONCE_LEN,
        encoded_ok(e.nonce),
        e.ciphertext.len() > 0,
        encoded_ok(e.ciphertext),
        e.mode matches ModeView::Password(s) ==> s.len() == SALT_LEN && encoded_ok(s),
    ensures
        parse_spec(render_spec(e)) == Ok::<EncFileView, ParseFailure>(e),
{
    reveal_strlit("SYMMETRY v1");
    reveal_strlit("key: keychain");
    reveal_strlit("key: password");
    reveal_strlit("nonce: ");
    reveal_strlit("salt: ");
    reveal_strlit("key");
    reveal_strlit("keychain");
    reveal_strlit("password");
    reveal_strlit("salt");
    reveal_strlit("nonce");
    let ls = render_lines(e);
    let nenc = b64_encoding(e.nonce);
    let cenc = b64_encoding(e.ciphertext);
    lemma_b64_plain(nenc);
    lemma_b64_plain(cenc);
    lemma_chunks(cenc);
    let ch = chunks(cenc);
    // "nonce: N" as name, separator, value
    let nonce_line = "nonce: "@ + nenc;
    assert(nonce_line =~= "nonce"@ + seq![':', ' '] + nenc);
    assert(no_ws("nonce"@));
    assert(lacks("nonce"@, ':'));
    lemma_header_line("nonce"@, nenc);
    let hl = header_lines(e.mode, e.nonce);
    let h0 = no_headers();
    let h_key = match e.mode {
        ModeView::Keychain => "keychain"@,
        ModeView::Password(_) => "password"@,
    };
    let key_line = match e.mode {
        ModeView::Keychain => "key: keychain"@,
        ModeView::Password(_) => "key: password"@,
    };
    assert(key_line =~= "key"@ + seq![':', ' '] + h_key);
    assert(no_ws("key"@));
    assert(lacks("key"@, ':'));
    assert(no_ws(h_key));
    assert(lacks(h_key, '\n'));
    lemma_header_line("key"@, h_key);
    let h1 = Headers { key: Some(h_key), salt: None, nonce: None };
    assert(apply_header(h0, "key"@, h_key) == Ok::<Headers, ParseFailure>(h1));
    assert(ls[0] == magic());
    assert(trim(ls[0]) == magic()) by {
        lemma_trim_start_no_ws(magic());
        lemma_trim_end_no_ws(magic());
    }
    assert(ls[1] == key_line);
    assert(read_headers(ls, 1, h0) == read_headers(ls, 2, h1));
    assert forall|i: int| 0 <= i < ls.len() implies plain_line(#[trigger] ls[i]) by {
        if i >= 1 + hl.len() + 1 {
            let k = i - (1 + hl.len() + 1);
            assert(ls[i] == ch[k]);
            lemma_b64_plain(ch[k]);
        }
        if i == 0 {
            assert(plain_line(magic()));
        }
    }
    lemma_lines_join(ls);
    assert(lines(render_spec(e)) == ls);
    match e.mode {
        ModeView::Keychain => {
            let h2 = Headers { key: Some(h_key), salt: None, nonce: Some(e.nonce) };
            assert(ls[2] == nonce_line);
            assert("nonce"@ != "key"@);
            assert("nonce"@ != "salt"@);
            assert(apply_header(h1, "nonce"@, nenc) == Ok::<Headers, ParseFailure>(h2));
            assert(read_headers(ls, 2, h1) == read_headers(ls, 3, h2));
            assert(ls[3] == Seq::<char>::empty());
            assert(trim(ls[3]) =~= Seq::<char>::empty());
            assert(read_headers(ls, 3, h2) == Ok::<(Headers, int), ParseFailure>((h2, 3)));
            assert(mode_from(h2) == Ok::<ModeView, ParseFailure>(ModeView::Keychain));
            assert(body_lines(ls, 3) =~= ch);
        },
        ModeView::Password(s) => {
            let senc = b64_encoding(s);
            lemma_b64_plain(senc);
            let salt_line = "salt: "@ + senc;
            assert(salt_line =~= "salt"@ + seq![':', ' '] + senc);
            assert(no_ws("salt"@));
            assert(lacks("salt"@, ':'));
            lemma_header_line("salt"@, senc);
            let h2 = Headers { key: Some(h_key), salt: Some(s), nonce: None };
            let h3 = Headers { key: Some(h_key), salt: Some(s), nonce: Some(e.nonce) };
            assert(ls[2] == salt_line);
            assert(ls[3] == nonce_line);
            assert("salt"@ != "key"@);
            assert("nonce"@ != "key"@);
            assert("nonce"@ != "salt"@);
            assert(apply_header(h1, "salt"@, senc) == Ok::<Headers, ParseFailure>(h2));
            assert(apply_header(h2, "nonce"@, nenc) == Ok::<Headers, ParseFailure>(h3));
            assert(read_headers(ls, 2, h1) == read_headers(ls, 3, h2));
            assert(read_headers(ls, 3, h2) == read_headers(ls, 4, h3));
            assert(ls[4] == Seq::<char>::empty());
            assert(trim(ls[4]) =~= Seq::<char>::empty());
            assert(read_headers(ls, 4, h3) == Ok::<(Headers, int), ParseFailure>((h3, 4)));
            assert("password"@ != "keychain"@);
            assert(mode_from(h3) == Ok::<ModeView, ParseFailure>(ModeView::Password(s)));
            assert(body_lines(ls, 4) =~= ch);
        },
    }
}


// ---------------------------------------------------------------------------
// Rendering and parsing
// ---------------------------------------------------------------------------

proof fn lemma_join_push(ls: Seq<Seq<char>>, l: Seq<char>)
    ensures
        join_lines(ls.push(l)) == join_lines(ls) + l + seq!['\n'],
{
    assert(ls.push(l).drop_last() =~= ls);
}

proof fn lemma_line_view(ls: Vec<Vec<char>>, i: int)
    requires
        0 <= i < ls@.len(),
    ensures
        ls.deep_view()[i] == ls@[i]@,
{
    assert(ls.deep_view()[i] =~= ls@[i]@);
}

fn append(out: &mut Vec<char>, s: &[char])
    ensures
        final(out)@ == old(out)@ + s@,
{
    let mut k: usize = 0;
    let ghost start = out@;
    while k < s.len()
        invariant
            k <= s@.len(),
            out@ == start + s@.subrange(0, k as int),
        decreases s@.len() - k,
    {
        out.push(s[k]);
        k = k + 1;
        assert(out@ =~= start + s@.subrange(0, k as int));
    }
    assert(s@.subrange(0, s@.len() as int) =~= s@);
}

fn push_line(out: &mut Vec<char>, line: &[char])
    ensures
        final(out)@ == old(out)@ + line@ + seq!['\n'],
{
    append(out, line);
    out.push('\n');
}

/// The line `name` followed by the base64 encoding of `bytes`.
fn encoded_line(name: &str, bytes: &[u8]) -> (r: Vec<char>)
    ensures
        r@ == name@ + b64_encoding(bytes@),
        encoded_ok(bytes@),
{
    let mut line = chars_of(name);
    let enc = b64_encode(bytes);
    let enc_chars = chars_of(enc.as_str());
    append(&mut line, &enc_chars);
    line
}

/// Decode a base64 value that must be exactly `N` bytes.
fn decode_fixed<const N: usize>(value: &[char]) -> (r: Result<[u8; N], FixedDecodeError>)
    ensures
        match decode_fixed_spec(value@, N as nat) {
            Some(b) => r matches Ok(a) && a@ == b,
            None => r is Err,
        },
{
    let s = string_of(value);
    match b64_decode(s.as_str()) {
        Err(m) => Err(FixedDecodeError::Base64(m)),
        Ok(bytes) => {
            if bytes.len() != N {
                Err(FixedDecodeError::Length { expected: N, got: bytes.len() })
            } else {
                let mut arr = [0u8; N];
                let mut k: usize = 0;
                while k < N
                    invariant
                        k <= N,
                        bytes@.len() == N,
                        arr@.len() == N,
                        forall|j: int| 0 <= j < k ==> arr@[j] == bytes@[j],
                    decreases N - k,
                {
                    arr[k] = bytes[k];
                    k = k + 1;
                }
                assert(arr@ =~= bytes@);
                Ok(arr)
            }
        },
    }
}

/// The headers held so far during parsing.
pub open spec fn headers_of(
    key: Option<Vec<char>>,
    salt: Option<[u8; SALT_LEN]>,
    nonce: Option<[u8; NONCE_LEN]>,
) -> Headers {
    Headers {
        key: match key {
            Some(k) => Some(k@),
            None => None,
        },
        salt: match salt {
            Some(s) => Some(s@),
            None => None,
        },
        nonce: match nonce {
            Some(n) => Some(n@),
            None => None,
        },
    }
}

impl EncFile {
    /// Armored text representation, friendly to git diffs. For a file with
    /// a ciphertext, `parse` of the text gives this file back.
    pub fn render(&self) -> (r: String)
        ensures
            r@ == render_spec(self@),
            self.ciphertext@.len() > 0 ==> parse_spec(r@) == Ok::<EncFileView, ParseFailure>(
                self@,
            ),
    {
        let ghost e = self@;
        let mut out: Vec<char> = Vec::new();
        let ghost mut done: Seq<Seq<char>> = seq![];
        assert(out@ =~= join_lines(done));
        let magic_line = chars_of("SYMMETRY v1");
        push_line(&mut out, &magic_line);
        proof {
            lemma_join_push(done, magic_line@);
            done = done.push(magic_line@);
        }
        match &self.mode {
            KeyMode::Keychain => {
                let key_line = chars_of("key: keychain");
                push_line(&mut out, &key_line);
                proof {
                    lemma_join_push(done, key_line@);
                    done = done.push(key_line@);
                }
            },
            KeyMode::Password { salt } => {
                let key_line = chars_of("key: password");
                push_line(&mut out, &key_line);
                proof {
                    lemma_join_push(done, key_line@);
                    done = done.push(key_line@);
                }
                let salt_line = encoded_line("salt: ", salt.as_slice());
                push_line(&mut out, &salt_line);
                proof {
                    lemma_join_push(done, salt_line@);
                    done = done.push(salt_line@);
                }
            },
        }
        let nonce_line = encoded_line("nonce: ", self.nonce.as_slice());
        push_line(&mut out, &nonce_line);
        proof {
            lemma_join_push(done, nonce_line@);
            done = done.push(nonce_line@);
        }
        let blank: Vec<char> = Vec::new();
        push_line(&mut out, &blank);
        proof {
            lemma_join_push(done, blank@);
            done = done.push(blank@);
        }
        let body_text = b64_encode(self.ciphertext.as_slice());
        let body = chars_of(body_text.as_str());
        proof {
            assert(done =~= seq![magic()] + header_lines(e.mode, e.nonce) + seq![
                Seq::<char>::empty(),
            ]);
            assert(body@.skip(0) =~= body@);
        }
        let mut i: usize = 0;
        while i < body.len()
            invariant
                i <= body@.len(),
                body@ == b64_encoding(e.ciphertext),
                out@ == join_lines(done),
                done + chunks(body@.skip(i as int)) == render_lines(e),
            decreases body@.len() - i,
        {
            let end = if body.len() - i > WRAP_COLS {
                i + WRAP_COLS
            } else {
                body.len()
            };
            let chunk = copy_range(&body, i, end);
            push_line(&mut out, &chunk);
            proof {
                let rest = body@.skip(i as int);
                if rest.len() <= 76 {
                    assert(chunk@ =~= rest);
                    assert(body@.skip(end as int) =~= Seq::<char>::empty());
                } else {
                    assert(rest.take(76) =~= chunk@);
                    assert(rest.skip(76) =~= body@.skip(end as int));
                }
                assert(chunks(rest) =~= seq![chunk@] + chunks(body@.skip(end as int)));
                lemma_join_push(done, chunk@);
                assert(done.push(chunk@) + chunks(body@.skip(end as int)) =~= done + chunks(
                    rest,
                ));
                done = done.push(chunk@);
            }
            i = end;
        }
        proof {
            assert(body@.skip(i as int) =~= Seq::<char>::empty());
            assert(done + Seq::<Seq<char>>::empty() =~= done);
            if e.ciphertext.len() > 0 {
                lemma_parse_render(e);
            }
        }
        string_of(&out)
    }

    /// Parse the armored text of an encrypted file.
    pub fn parse(text: &str) -> (r: Result<EncFile, EncParseError>)
        ensures
            match parse_spec(text@) {
                Ok(v) => r matches Ok(e) && e@ == v,
                Err(f) => r matches Err(x) && x@ == f,
            },
    {
        let cs = chars_of(text);
        let ls = split_lines(&cs);
        let ghost lsv = ls.deep_view();
        if ls.len() == 0 {
            return Err(EncParseError::NotEncrypted);
        }
        let first = trim_chars(&ls[0]);
        proof {
            lemma_line_view(ls, 0);
        }
        if !chars_eq(&first, &chars_of("SYMMETRY v1")) {
            return Err(EncParseError::NotEncrypted);
        }
        let mut key: Option<Vec<char>> = None;
        let mut salt: Option<[u8; SALT_LEN]> = None;
        let mut nonce: Option<[u8; NONCE_LEN]> = None;
        let ghost target = read_headers(lsv, 1, no_headers());
        let mut i: usize = 1;
        let mut end: usize = ls.len();
        assert(headers_of(key, salt, nonce) == no_headers());
        while i < ls.len() && end == ls.len()
            invariant
                1 <= i <= ls@.len(),
                end <= ls@.len(),
                lsv == ls.deep_view(),
                lsv == lines(text@),
                lsv.len() > 0,
                trim(lsv[0]) == magic(),
                target == read_headers(lsv, 1, no_headers()),
                end == ls@.len() ==> target == read_headers(
                    lsv,
                    i as int,
                    headers_of(key, salt, nonce),
                ),
                end < ls@.len() ==> target == Ok::<(Headers, int), ParseFailure>(
                    (headers_of(key, salt, nonce), end as int),
                ),
            decreases ls@.len() - i,
        {
            proof {
                lemma_line_view(ls, i as int);
            }
            let line = trim_chars(&ls[i]);
            if line.len() == 0 {
                end = i;
            } else {
                let c = find_char(&line, ':');
                proof {
                    crate::text::lemma_find(line@, ':');
                }
                if c == line.len() {
                    proof {
                        assert(split_once(line@, ':') is None);
                        assert(read_headers(lsv, i as int, headers_of(key, salt, nonce))
                            == Err::<(Headers, int), ParseFailure>(
                            ParseFailure::MalformedHeader(line@),
                        ));
                    }
                    return Err(EncParseError::MalformedHeader(string_of(&line)));
                }
                let name = trim_chars(&copy_range(&line, 0, c));
                let value = trim_chars(&copy_range(&line, c + 1, line.len()));
                proof {
                    crate::text::lemma_find(line@, ':');
                    assert(line@.subrange(0, c as int) =~= line@.take(c as int));
                    assert(line@.subrange(c + 1, line@.len() as int) =~= line@.skip(c + 1));
                }
                if chars_eq(&name, &chars_of("key")) {
                    key = Some(value);
                } else if chars_eq(&name, &chars_of("salt")) {
                    match decode_fixed::<SALT_LEN>(&value) {
                        Ok(s) => {
                            salt = Some(s);
                        },
                        Err(d) => {
                            proof {
                                assert(target == Err::<(Headers, int), ParseFailure>(
                                    ParseFailure::InvalidSalt,
                                ));
                            }
                            return Err(EncParseError::InvalidSalt(d));
                        },
                    }
                } else if chars_eq(&name, &chars_of("nonce")) {
                    match decode_fixed::<NONCE_LEN>(&value) {
                        Ok(n) => {
                            nonce = Some(n);
                        },
                        Err(d) => {
                            proof {
                                assert(target == Err::<(Headers, int), ParseFailure>(
                                    ParseFailure::InvalidNonce,
                                ));
                            }
                            return Err(EncParseError::InvalidNonce(d));
                        },
                    }
                }
            }
            i = i + 1;
        }
        let ghost h = headers_of(key, salt, nonce);
        assert(target == Ok::<(Headers, int), ParseFailure>((h, end as int)));
        let mode = match key {
            None => {
                return Err(EncParseError::MissingKeyHeader);
            },
            Some(k) => {
                if chars_eq(&k, &chars_of("keychain")) && salt.is_none() {
                    KeyMode::Keychain
                } else if chars_eq(&k, &chars_of("password")) {
                    match salt {
                        Some(s) => KeyMode::Password { salt: s },
                        None => {
                            return Err(EncParseError::MissingSalt);
                        },
                    }
                } else {
                    return Err(EncParseError::UnknownKeyMode(string_of(&k)));
                }
            },
        };
        assert(mode_from(h) == Ok::<ModeView, ParseFailure>(mode@));
        let nonce = match nonce {
            Some(n) => n,
            None => {
                return Err(EncParseError::MissingNonce);
            },
        };
        let mut body: Vec<char> = Vec::new();
        let ghost whole = concat_trimmed(body_lines(lsv, end as int));
        if end < ls.len() {
            let mut j: usize = end + 1;
            assert(body_lines(lsv, end as int) == lsv.skip(j as int));
            assert(body@ + concat_trimmed(lsv.skip(j as int)) =~= whole);
            while j < ls.len()
                invariant
                    end < j <= ls@.len(),
                    lsv == ls.deep_view(),
                    body@ + concat_trimmed(lsv.skip(j as int)) == whole,
                decreases ls@.len() - j,
            {
                proof {
                    lemma_line_view(ls, j as int);
                    let s = lsv.skip(j as int);
                    assert(s[0] == lsv[j as int]);
                    assert(s.drop_first() =~= lsv.skip(j + 1));
                }
                let t = trim_chars(&ls[j]);
                let ghost before = body@;
                append(&mut body, &t);
                assert(body@ + concat_trimmed(lsv.skip(j + 1)) =~= before + concat_trimmed(
                    lsv.skip(j as int),
                ));
                j = j + 1;
            }
            assert(lsv.skip(j as int) =~= Seq::<Seq<char>>::empty());
            assert(body@ =~= whole);
        } else {
            assert(body_lines(lsv, end as int) =~= Seq::<Seq<char>>::empty());
            assert(body@ =~= whole);
        }
        let body_text = string_of(&body);
        match b64_decode(body_text.as_str()) {
            Err(m) => Err(EncParseError::InvalidCiphertext(m)),
            Ok(ciphertext) => {
                if ciphertext.len() == 0 {
                    Err(EncParseError::MissingCiphertext)
                } else {
                    Ok(EncFile { mode, nonce, ciphertext })
                }
            },
        }
    }
}

} // verus!
