# hamalert_rx

The logic of a HamAlert DX receiver, verified with Verus: reading DX-cluster
and HamAlert JSON spot lines, the band plan, base callsigns and operating
modes, the keys by which repeated spots are recognised, the buffer of recent
spots with its count of the day, and the answers of the QRZ XML service.

- `src/` — the library.  Its functions carry contracts that Verus proves,
  except a few small wrappers around chrono, serde_json and std (marked
  `#[verifier::external_body]`), whose contracts Verus takes on trust:
  - `text`, `format`: character-level text handling (trimming, words,
    searching, UTF-8 lengths) and number rendering;
  - `number`: number texts in the syntax `f64` parsing accepts, valued as
    exact decimals and rounded to whole kilohertz (floating point has no
    place in the verified code, so frequencies are whole kilohertz in an
    `i64`, not `f64` megahertz);
  - `band`, `callsign`: band plan, base callsigns, mode detection;
  - `clock`, `json`: the system clock (std), its RFC 3339 text and the reading
    of time stamps (chrono), spot identifiers that never repeat, and JSON
    members (serde_json), the outside calls reached through small trusted
    wrappers;
  - `spot`: spots read from DX-cluster and JSON lines, and their keys;
  - `receiver`: what happens to each received line, with its laws;
  - `qrz`: values of QRZ XML answers, login and lookup outcomes.
- `app/` — the Tauri backend around it: the Telnet connection, files, HTTP
  requests to QRZ, updates, and the serde form of spots.
- `tests/` — tests of the library on concrete inputs.
