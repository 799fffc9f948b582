/* The only frames that save or restore a jmp_buf. */
#include <setjmp.h>
#include <stddef.h>
#include <stdint.h>

/* Must stay equal to RECOVERY_GAP_BYTES in src/frame.rs. */
#define SETBACK_RECOVERY_GAP_BYTES 64

/* Must stay equal to SETBACK_OK in src/frame.rs. */
#define SETBACK_OK 0
#define SETBACK_JUMPED 1

#if defined(__GNUC__) || defined(__clang__)
#define SETBACK_NOINLINE __attribute__((noinline))
#else
#define SETBACK_NOINLINE
#endif

typedef void (*setback_tramp)(void *);

size_t setback_jmpbuf_size(void) { return sizeof(jmp_buf); }

struct setback_align {
    char c;
    jmp_buf jb;
};

size_t setback_jmpbuf_align(void) { return offsetof(struct setback_align, jb); }

/* Holds the gap between the mark and the protected code for the whole run. */
static SETBACK_NOINLINE void setback_run_below_gap(setback_tramp tramp, void *data) {
    volatile unsigned char gap[SETBACK_RECOVERY_GAP_BYTES];
    gap[0] = 0;
    gap[SETBACK_RECOVERY_GAP_BYTES - 1] = 0;
    tramp(data);
    gap[0] = gap[SETBACK_RECOVERY_GAP_BYTES - 1];
}

int32_t setback_call(void *jb, setback_tramp tramp, void *data) {
    if (setjmp(*(jmp_buf *)jb) == 0) {
        setback_run_below_gap(tramp, data);
        return SETBACK_OK;
    }
    return SETBACK_JUMPED;
}

void setback_longjmp(void *jb) { longjmp(*(jmp_buf *)jb, 1); }
