# bt-rearm

Brings bonded Bluetooth LE devices back on Android tablets whose own stack does not reconnect
them. The user arms a device; when it advertises and the system has not connected it, the system's
own connect call is made for it.

- `src/` is the library that decides. It touches no platform function and reads no clock: events
  and moments go in, decisions come out. Its contracts are checked by Verus.
  - `engine` holds the engine with its methods, `model` the mathematical state that their contracts
    speak of, `bridge` the lists, rows and orders that pass between engine and platform;
  - `history`, `records` and `laws` state and prove what holds over many calls;
  - `roster` and `text` are sets of addresses in ascending order and plain text.
- `app/` is the Android side: the screen, and the calls to and from Java.
- `tests/` runs the library on concrete scenarios.
