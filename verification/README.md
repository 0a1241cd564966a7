# vchat

A terminal voice chat between peers. Each peer shows a *friend code* (its socket
address as hex bytes); typing a friend's code adds the friend to the call, and the
microphone's samples travel over UDP to every address of the call.

## Layout

- `src/` — the library, verified with Verus:
  - `packet`, `bytes`, `hash`, `version`, `time`: the wire format of a voice packet
    (version, timestamp, SHA-256 checksum prefix, payload) and its round trip;
  - `samples`, `config_filter`: sample words on the wire, the speaker buffer filler,
    silence levels and the choice of a device configuration;
  - `voice_net`: the time-ordered queue of received packets;
  - `addr`, `addr_text`, `address_book`, `friend_code`: socket addresses, their text
    forms, the set of addresses of a call and friend codes;
  - `keys`, `line_text_area`, `app_state`: the screens and the text input as state
    machines driven by key events.
- `app/` — the program around it: terminal, audio devices, UDP socket and threads.
- `tests/` — tests of the library.
